//! Ear clipping keeps the area: the corners it cuts off and the triangle it
//! is left with add up to the shoelace area of the outline.
use crate::geometry::{
    fan_area2, lemma_fan_is_shoelace, lemma_four_points, lemma_orient_cycle, shoelace2,
};
use crate::mesh::{
    clip, full_ring, is_first_ear, ring_in_bounds, ring_next, ring_prev, triangulation,
};
use crate::vector::{orient, Point};
use crate::winding::{
    clockwise, lemma_mirror_orient, lemma_mirror_shoelace, mirrored, upright,
};
use vstd::prelude::*;

verus! {

/// The doubled areas of the first `k` triangles of the fan that a ring forms
/// around its first entry: the triangles of entries `0, j, j + 1` for `j`
/// from 1 to `k`.
pub open spec fn ring_fan2(points: Seq<Point>, ring: Seq<usize>, k: int) -> int
    decreases k,
{
    if k <= 0 {
        0
    } else {
        ring_fan2(points, ring, k - 1) + orient(
            points[ring[0] as int],
            points[ring[k] as int],
            points[ring[k + 1] as int],
        )
    }
}

/// Twice the signed area that a ring of vertices encloses.
pub open spec fn ring_area2(points: Seq<Point>, ring: Seq<usize>) -> int {
    ring_fan2(points, ring, ring.len() - 2)
}

/// Twice the signed area of the triangles of a clipping result. A corner
/// that was cut off is listed as (ear, predecessor, successor) and counts
/// with the area of the corner taken in ring order; the last triangle is
/// listed in ring order.
pub open spec fn clipped_area2(points: Seq<Point>, triangles: Seq<usize>) -> int
    decreases triangles.len(),
{
    if triangles.len() < 3 {
        0
    } else if triangles.len() < 6 {
        orient(
            points[triangles[0] as int],
            points[triangles[1] as int],
            points[triangles[2] as int],
        )
    } else {
        orient(
            points[triangles[1] as int],
            points[triangles[0] as int],
            points[triangles[2] as int],
        ) + clipped_area2(points, triangles.skip(3))
    }
}

/// The triangles of a fan that come before a removed entry stay as they
/// are.
proof fn lemma_fan_before_removal(points: Seq<Point>, ring: Seq<usize>, v: int, k: int)
    requires
        1 <= v < ring.len(),
        0 <= k,
        k + 1 < v,
    ensures
        ring_fan2(points, ring.remove(v), k) == ring_fan2(points, ring, k),
    decreases k,
{
    if k > 0 {
        lemma_fan_before_removal(points, ring, v, k - 1);
    }
}

/// From the removed entry on, the fan of the shorter ring runs one triangle
/// behind the fan of the ring, and lacks the corner that was cut off.
proof fn lemma_fan_after_removal(points: Seq<Point>, ring: Seq<usize>, v: int, k: int)
    requires
        ring.len() >= 4,
        1 <= v <= ring.len() - 2,
        v - 1 <= k <= ring.len() - 3,
    ensures
        ring_fan2(points, ring.remove(v), k) + orient(
            points[ring[v - 1] as int],
            points[ring[v] as int],
            points[ring[v + 1] as int],
        ) == ring_fan2(points, ring, k + 1),
    decreases k,
{
    let shorter = ring.remove(v);
    let o = points[ring[0] as int];
    let a = points[ring[v - 1] as int];
    let b = points[ring[v] as int];
    let c = points[ring[v + 1] as int];
    if k == v - 1 {
        if v == 1 {
            assert(ring_fan2(points, shorter, 0) == 0);
            assert(ring_fan2(points, ring, 1) == ring_fan2(points, ring, 0) + orient(o, b, c));
        } else {
            lemma_fan_before_removal(points, ring, v, v - 2);
            assert(shorter[0] == ring[0] && shorter[v - 1] == ring[v - 1] && shorter[v] == ring[v
                + 1]);
            assert(ring_fan2(points, shorter, v - 1) == ring_fan2(points, shorter, v - 2)
                + orient(o, a, c));
            assert(ring_fan2(points, ring, v) == ring_fan2(points, ring, v - 1) + orient(o, b, c));
            assert(ring_fan2(points, ring, v - 1) == ring_fan2(points, ring, v - 2) + orient(
                o,
                a,
                b,
            ));
            lemma_four_points(o, a, b, c);
        }
    } else {
        lemma_fan_after_removal(points, ring, v, k - 1);
        assert(shorter[0] == ring[0] && shorter[k] == ring[k + 1] && shorter[k + 1] == ring[k
            + 2]);
    }
}

/// Cutting a corner off a ring takes the area of the corner from the area
/// of the ring. The first entry of the ring is never cut off.
proof fn lemma_removal_area(points: Seq<Point>, ring: Seq<usize>, v: int)
    requires
        ring.len() >= 4,
        1 <= v < ring.len(),
    ensures
        ring_area2(points, ring) == ring_area2(points, ring.remove(v)) + orient(
            points[ring_prev(ring, v) as int],
            points[ring[v] as int],
            points[ring_next(ring, v) as int],
        ),
{
    let m = ring.len() as int;
    if v <= m - 2 {
        lemma_fan_after_removal(points, ring, v, m - 3);
    } else {
        lemma_fan_before_removal(points, ring, v, m - 3);
        let o = points[ring[0] as int];
        let a = points[ring[m - 2] as int];
        let b = points[ring[m - 1] as int];
        assert(ring_fan2(points, ring, m - 2) == ring_fan2(points, ring, m - 3) + orient(o, a, b));
        lemma_orient_cycle(o, a, b);
    }
}

/// The triangles that ear clipping cuts from a ring have the area of the
/// ring.
pub proof fn lemma_clip_area(points: Seq<Point>, ring: Seq<usize>)
    requires
        clip(points, ring).is_some(),
    ensures
        clip(points, ring).unwrap().len() >= 3,
        clipped_area2(points, clip(points, ring).unwrap()) == ring_area2(points, ring),
    decreases ring.len(),
{
    if ring.len() == 3 {
        assert(ring_fan2(points, ring, 1) == ring_fan2(points, ring, 0) + orient(
            points[ring[0] as int],
            points[ring[1] as int],
            points[ring[2] as int],
        ));
    } else {
        let v = choose|v: int| is_first_ear(points, ring, v);
        let shorter = ring.remove(v);
        let rest = clip(points, shorter).unwrap();
        let corner = seq![ring[v], ring_prev(ring, v), ring_next(ring, v)];
        lemma_clip_area(points, shorter);
        lemma_removal_area(points, ring, v);
        let all = corner + rest;
        assert(all.skip(3) =~= rest);
        assert(all[0] == ring[v] && all[1] == ring_prev(ring, v) && all[2] == ring_next(ring, v));
    }
}

/// The fan of the ring of all vertices is the fan of the outline.
proof fn lemma_full_ring_fan(points: Seq<Point>, k: int)
    requires
        0 <= k,
        k + 1 < points.len(),
        points.len() <= usize::MAX,
    ensures
        ring_fan2(points, full_ring(points.len() as int), k) == fan_area2(points, k),
    decreases k,
{
    if k > 0 {
        lemma_full_ring_fan(points, k - 1);
    }
}

/// The triangles that ear clipping cuts from a ring of vertices of the
/// outline name vertices of the outline.
proof fn lemma_clip_in_bounds(points: Seq<Point>, ring: Seq<usize>, n: int)
    requires
        clip(points, ring).is_some(),
        ring_in_bounds(ring, n),
    ensures
        ring_in_bounds(clip(points, ring).unwrap(), n),
    decreases ring.len(),
{
    if ring.len() > 3 {
        let v = choose|v: int| is_first_ear(points, ring, v);
        let shorter = ring.remove(v);
        assert forall|k: int| 0 <= k < shorter.len() implies (#[trigger] shorter[k]) < n by {
            if k < v {
                assert(shorter[k] == ring[k]);
            } else {
                assert(shorter[k] == ring[k + 1]);
            }
        }
        lemma_clip_in_bounds(points, shorter, n);
        let rest = clip(points, shorter).unwrap();
        let corner = seq![ring[v], ring_prev(ring, v), ring_next(ring, v)];
        assert forall|k: int| 0 <= k < (corner + rest).len() implies (#[trigger] (corner
            + rest)[k]) < n by {
            if k >= 3 {
                assert((corner + rest)[k] == rest[k - 3]);
            }
        }
    }
}

/// The signed area of a list of triangles changes its sign on the mirror
/// image of the outline.
proof fn lemma_mirror_clipped_area(points: Seq<Point>, triangles: Seq<usize>)
    requires
        ring_in_bounds(triangles, points.len() as int),
    ensures
        clipped_area2(mirrored(points), triangles) == -clipped_area2(points, triangles),
    decreases triangles.len(),
{
    if triangles.len() >= 3 {
        let a = triangles[0] as int;
        let b = triangles[1] as int;
        let c = triangles[2] as int;
        assert(a < points.len() && b < points.len() && c < points.len());
        lemma_mirror_orient(points[a], points[b], points[c]);
        lemma_mirror_orient(points[b], points[a], points[c]);
        if triangles.len() >= 6 {
            let rest = triangles.skip(3);
            assert forall|k: int| 0 <= k < rest.len() implies (#[trigger] rest[k])
                < points.len() by {
                assert(rest[k] == triangles[k + 3]);
            }
            lemma_mirror_clipped_area(points, rest);
        }
    }
}

/// Whenever ear clipping succeeds, on a convex outline or not and whichever
/// way the outline runs, its triangles have exactly the shoelace area of the
/// outline.
pub proof fn lemma_triangulation_area(points: Seq<Point>)
    requires
        points.len() <= usize::MAX,
        triangulation(points).is_some(),
    ensures
        clipped_area2(points, triangulation(points).unwrap()) == shoelace2(points),
{
    let n = points.len() as int;
    let turned = upright(points);
    lemma_clip_area(turned, full_ring(n));
    lemma_full_ring_fan(turned, n - 2);
    lemma_fan_is_shoelace(turned);
    if clockwise(points) {
        lemma_mirror_shoelace(points);
        lemma_clip_in_bounds(turned, full_ring(n), n);
        lemma_mirror_clipped_area(points, triangulation(points).unwrap());
    }
}

} // verus!
