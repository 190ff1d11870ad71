//! Why the even-odd rule finds the points inside a convex outline: a ray
//! from a point inside crosses the boundary exactly once.
use crate::collision::{crossings, detect, inside, ray_end, ray_hits_edge, ring_before};
use crate::dynamics::positions;
use crate::fixed::RAW_LIMIT;
use crate::geometry::{
    fan_area2, is_bounding_box, lemma_fan_is_shoelace, lemma_orient_cycle, lemma_orient_swap,
    shoelace2, strictly_convex, sum_x, sum_y,
};
use crate::shape::ShapeView;
use crate::vector::{lemma_orient_expanded, orient, Point};
use crate::winding::{
    convex, convex_clockwise, lemma_mirror_convex, lemma_mirror_of_convex, lemma_mirror_orient,
    lemma_mirror_shoelace, mirror, mirrored, strictly_convex_clockwise, turn,
};
use vstd::prelude::*;

verus! {

/// Twice the signed area of the triangle that edge `i` of the ring forms
/// with `p`: positive when `p` lies on the left of the edge.
pub open spec fn edge_side(ring: Seq<Point>, p: Point, i: int) -> int {
    orient(ring[ring_before(ring.len() as int, i)], ring[i], p)
}

/// `p` lies strictly on the left of every edge of the ring: strictly inside
/// a convex, counter-clockwise outline.
pub open spec fn strictly_inside(ring: Seq<Point>, p: Point) -> bool {
    forall|i: int| 0 <= i < ring.len() ==> #[trigger] edge_side(ring, p, i) > 0
}

/// The vertex `v` lies on the horizontal ray that leaves `p` toward larger
/// x.
pub open spec fn on_ray(p: Point, v: Point) -> bool {
    v.y == p.y && v.x >= p.x
}

/// No vertex of the ring lies on the ray from `p`.
pub open spec fn ray_avoids_vertices(ring: Seq<Point>, p: Point) -> bool {
    forall|i: int| 0 <= i < ring.len() ==> !on_ray(p, #[trigger] ring[i])
}

/// No vertex of the ring lies beyond the x coordinate `end_x`.
pub open spec fn ray_reaches(ring: Seq<Point>, end_x: int) -> bool {
    forall|i: int| 0 <= i < ring.len() ==> (#[trigger] ring[i]).x <= end_x
}

/// Edge `i` of the ring climbs past `p`: it starts strictly below the height
/// of `p` and ends strictly above it.
pub open spec fn climbs(ring: Seq<Point>, p: Point, i: int) -> bool {
    ring[ring_before(ring.len() as int, i)].y < p.y < ring[i].y
}

/// For an edge that has `p` strictly on its left and no end on the ray from
/// `p`, the parity test counts the edge exactly when it climbs past `p`. An
/// end at the height of `p` is followed by an end below `p`, and preceded by
/// one above.
proof fn lemma_edge_hit(p: Point, end_x: int, a: Point, b: Point)
    requires
        orient(a, b, p) > 0,
        a.x <= end_x,
        b.x <= end_x,
        !on_ray(p, a),
        !on_ray(p, b),
    ensures
        ray_hits_edge(p, end_x, a, b) == (a.y < p.y && p.y < b.y),
        a.y == p.y ==> b.y < p.y,
        b.y == p.y ==> a.y > p.y,
{
    let side = orient(a, b, p);
    let (ax, ay) = (p.x - a.x, p.y - a.y);
    let (bx, by) = (p.x - b.x, p.y - b.y);
    assert(side == (ax - bx) * ay - (ay - by) * ax);
    assert(side == ay * (0 - bx) + by * ax) by (nonlinear_arith)
        requires
            side == (ax - bx) * ay - (ay - by) * ax,
    ;
    if ay == 0 {
        assert(by > 0) by (nonlinear_arith)
            requires
                side == ay * (0 - bx) + by * ax,
                ay == 0,
                ax > 0,
                side > 0,
        ;
    } else if by == 0 {
        assert(ay < 0) by (nonlinear_arith)
            requires
                side == ay * (0 - bx) + by * ax,
                by == 0,
                bx > 0,
                side > 0,
        ;
    } else if ay > 0 && by < 0 {
        if ax > 0 && bx > 0 {
            assert(false) by (nonlinear_arith)
                requires
                    side == ay * (0 - bx) + by * ax,
                    ay > 0,
                    by < 0,
                    ax > 0,
                    bx > 0,
                    side > 0,
            ;
        }
    } else if ay < 0 && by > 0 {
        if ax <= 0 && bx <= 0 {
            assert(false) by (nonlinear_arith)
                requires
                    side == ay * (0 - bx) + by * ax,
                    ay < 0,
                    by > 0,
                    ax <= 0,
                    bx <= 0,
                    side > 0,
            ;
        }
    }
}

/// Of three vectors in the plane, each times the cross product of the other
/// two, taken in turn, add up to nothing; here in the y coordinate, for the
/// vectors `w`, `u` and `q`: `(w x u) * q.y == (q x u) * w.y + (w x q) * u.y`.
proof fn lemma_jacobi(wx: int, wy: int, ux: int, uy: int, qx: int, qy: int)
    ensures
        (wx * uy - wy * ux) * qy == (qx * uy - qy * ux) * wy + (wx * qy - wy * qx) * uy,
{
    let (a, b) = (wx * uy, wy * ux);
    let (c, d) = (qx * uy, qy * ux);
    let (e, f) = (wx * qy, wy * qx);
    assert((a - b) * qy == a * qy - b * qy) by (nonlinear_arith);
    assert((c - d) * wy == c * wy - d * wy) by (nonlinear_arith);
    assert((e - f) * uy == e * uy - f * uy) by (nonlinear_arith);
    assert(a * qy == e * uy) by (nonlinear_arith)
        requires
            a == wx * uy,
            e == wx * qy,
    ;
    assert(b * qy == d * wy) by (nonlinear_arith)
        requires
            b == wy * ux,
            d == qy * ux,
    ;
    assert(c * wy == f * uy) by (nonlinear_arith)
        requires
            c == qx * uy,
            f == wy * qx,
    ;
}

/// The areas of the four triangles of four points balance.
proof fn lemma_weights_balance(a: Point, b: Point, c: Point, d: Point)
    ensures
        orient(a, b, c) == orient(b, c, d) - orient(a, c, d) + orient(a, b, d),
{
    lemma_orient_expanded(a, b, c);
    lemma_orient_expanded(b, c, d);
    lemma_orient_expanded(a, c, d);
    lemma_orient_expanded(a, b, d);
    assert(b.x * a.y == a.y * b.x && a.x * c.y == c.y * a.x && b.y * a.x == a.x * b.y && a.y
        * c.x == c.x * a.y && c.x * b.y == b.y * c.x && b.x * d.y == d.y * b.x && c.y * b.x
        == b.x * c.y && b.y * d.x == d.x * b.y && c.x * a.y == a.y * c.x && a.x * d.y == d.y
        * a.x && c.y * a.x == a.x * c.y && a.y * d.x == d.x * a.y) by (nonlinear_arith);
}

/// The doubled areas of the four triangles of four points, each times the
/// height of the fourth point above a horizontal line, balance; and so do
/// the areas themselves.
proof fn lemma_heights_balance(a: Point, b: Point, c: Point, d: Point, h: int)
    ensures
        orient(b, c, d) * (a.y - h) - orient(a, c, d) * (b.y - h) + orient(a, b, d) * (c.y - h)
            - orient(a, b, c) * (d.y - h) == 0,
        orient(a, b, c) == orient(b, c, d) - orient(a, c, d) + orient(a, b, d),
{
    let (x1, y1) = (a.x - d.x, a.y - d.y);
    let (x2, y2) = (b.x - d.x, b.y - d.y);
    let (x3, y3) = (c.x - d.x, c.y - d.y);
    let wa = orient(b, c, d);
    let wb = orient(a, c, d);
    let wc = orient(a, b, d);
    let wd = orient(a, b, c);
    // seen from `d`, the weights are the cross products of the other three
    lemma_orient_cycle(d, b, c);
    lemma_orient_cycle(d, a, c);
    lemma_orient_cycle(d, a, b);
    assert(wa == x2 * y3 - y2 * x3);
    assert(wb == x1 * y3 - y1 * x3);
    assert(wc == x1 * y2 - y1 * x2);
    lemma_weights_balance(a, b, c, d);
    assert(wd == wa - wb + wc);
    // the three vectors from `d` satisfy y1 * (2 x 3) - y2 * (1 x 3) + y3 * (1 x 2) = 0
    lemma_jacobi(x2, y2, x3, y3, x1, y1);
    let back = x2 * y1 - y2 * x1;
    assert(back == -wc) by (nonlinear_arith)
        requires
            back == x2 * y1 - y2 * x1,
            wc == x1 * y2 - y1 * x2,
    ;
    assert(back * y3 == -(wc * y3)) by (nonlinear_arith)
        requires
            back == -wc,
    ;
    assert(wa * y1 - wb * y2 + wc * y3 == 0);
    let (ha, hb, hc, hd) = (a.y - h, b.y - h, c.y - h, d.y - h);
    assert(wa * ha == wa * y1 + wa * hd) by (nonlinear_arith)
        requires
            ha == y1 + hd,
    ;
    assert(wb * hb == wb * y2 + wb * hd) by (nonlinear_arith)
        requires
            hb == y2 + hd,
    ;
    assert(wc * hc == wc * y3 + wc * hd) by (nonlinear_arith)
        requires
            hc == y3 + hd,
    ;
    assert(wd * hd == wa * hd - wb * hd + wc * hd) by (nonlinear_arith)
        requires
            wd == wa - wb + wc,
    ;
    assert(wa * ha - wb * hb + wc * hc - wd * hd == 0);
}

/// Four points in convex position, taken in boundary order, cannot lie
/// alternately above and below a horizontal line.
proof fn lemma_no_alternation(a: Point, b: Point, c: Point, d: Point, h: int)
    requires
        orient(b, c, d) > 0,
        orient(a, c, d) > 0,
        orient(a, b, d) > 0,
        orient(a, b, c) > 0,
    ensures
        !(a.y > h && b.y < h && c.y > h && d.y < h),
        !(a.y < h && b.y > h && c.y < h && d.y > h),
{
    let wa = orient(b, c, d);
    let wb = orient(a, c, d);
    let wc = orient(a, b, d);
    let wd = orient(a, b, c);
    let (ha, hb, hc, hd) = (a.y - h, b.y - h, c.y - h, d.y - h);
    lemma_heights_balance(a, b, c, d, h);
    if ha > 0 && hb < 0 && hc > 0 && hd < 0 {
        assert(wa * ha - wb * hb + wc * hc - wd * hd > 0) by (nonlinear_arith)
            requires
                wa > 0,
                wb > 0,
                wc > 0,
                wd > 0,
                ha > 0,
                hb < 0,
                hc > 0,
                hd < 0,
        ;
    }
    if ha < 0 && hb > 0 && hc < 0 && hd > 0 {
        assert(wa * ha - wb * hb + wc * hc - wd * hd < 0) by (nonlinear_arith)
            requires
                wa > 0,
                wb > 0,
                wc > 0,
                wd > 0,
                ha < 0,
                hb > 0,
                hc < 0,
                hd > 0,
        ;
    }
}

/// A point on the left of two edges that meet at a convex corner cannot lie
/// below the corner when both edges lead up from it, nor above it when both
/// lead down.
proof fn lemma_corner(before: Point, corner: Point, after: Point, p: Point)
    requires
        orient(before, corner, after) > 0,
        orient(before, corner, p) > 0,
        orient(corner, after, p) > 0,
    ensures
        !(before.y >= corner.y && after.y >= corner.y && p.y < corner.y),
        !(before.y <= corner.y && after.y <= corner.y && p.y > corner.y),
{
    let (ux, uy) = (before.x - corner.x, before.y - corner.y);
    let (wx, wy) = (after.x - corner.x, after.y - corner.y);
    let (qx, qy) = (p.x - corner.x, p.y - corner.y);
    let turn = orient(before, corner, after);
    let first = orient(before, corner, p);
    let second = orient(corner, after, p);
    // seen from the corner, the three areas are cross products
    lemma_orient_cycle(before, corner, after);
    lemma_orient_cycle(before, corner, p);
    assert(turn == wx * uy - wy * ux);
    assert(first == qx * uy - qy * ux);
    assert(second == wx * qy - wy * qx);
    lemma_jacobi(wx, wy, ux, uy, qx, qy);
    assert(turn * qy == first * wy + second * uy);
    if uy >= 0 && wy >= 0 && qy < 0 {
        assert(turn * qy < 0 && first * wy + second * uy >= 0) by (nonlinear_arith)
            requires
                turn > 0,
                first > 0,
                second > 0,
                uy >= 0,
                wy >= 0,
                qy < 0,
        ;
    }
    if uy <= 0 && wy <= 0 && qy > 0 {
        assert(turn * qy > 0 && first * wy + second * uy <= 0) by (nonlinear_arith)
            requires
                turn > 0,
                first > 0,
                second > 0,
                uy <= 0,
                wy <= 0,
                qy > 0,
        ;
    }
}

/// The index of the vertex after `i` on a ring of `n`.
pub open spec fn ring_after(n: int, i: int) -> int {
    if i == n - 1 {
        0
    } else {
        i + 1
    }
}

/// Every corner of a strictly convex outline turns counter-clockwise.
proof fn lemma_corner_turns(ring: Seq<Point>, m: int)
    requires
        ring.len() >= 3,
        strictly_convex(ring),
        0 <= m < ring.len(),
    ensures
        orient(
            ring[ring_before(ring.len() as int, m)],
            ring[m],
            ring[ring_after(ring.len() as int, m)],
        ) > 0,
{
    let n = ring.len() as int;
    if m == 0 {
        assert(orient(ring[0], ring[1], ring[n - 1]) > 0);
        lemma_orient_cycle(ring[0], ring[1], ring[n - 1]);
    } else if m == n - 1 {
        assert(orient(ring[0], ring[n - 2], ring[n - 1]) > 0);
        lemma_orient_cycle(ring[0], ring[n - 2], ring[n - 1]);
    } else {
        assert(orient(ring[m - 1], ring[m], ring[m + 1]) > 0);
    }
}

/// An index of a lowest vertex among the first `k`.
proof fn lemma_lowest(ring: Seq<Point>, k: int) -> (m: int)
    requires
        1 <= k <= ring.len(),
    ensures
        0 <= m < k,
        forall|j: int| 0 <= j < k ==> ring[m].y <= (#[trigger] ring[j]).y,
    decreases k,
{
    if k == 1 {
        0
    } else {
        let m = lemma_lowest(ring, k - 1);
        if ring[k - 1].y < ring[m].y {
            k - 1
        } else {
            m
        }
    }
}

/// An index of a highest vertex among the first `k`.
proof fn lemma_highest(ring: Seq<Point>, k: int) -> (m: int)
    requires
        1 <= k <= ring.len(),
    ensures
        0 <= m < k,
        forall|j: int| 0 <= j < k ==> ring[m].y >= (#[trigger] ring[j]).y,
    decreases k,
{
    if k == 1 {
        0
    } else {
        let m = lemma_highest(ring, k - 1);
        if ring[k - 1].y > ring[m].y {
            k - 1
        } else {
            m
        }
    }
}

/// What the hypotheses of the crossing lemma give for one edge.
proof fn lemma_edge_at(ring: Seq<Point>, p: Point, end_x: int, i: int)
    requires
        ring.len() >= 3,
        strictly_inside(ring, p),
        ray_avoids_vertices(ring, p),
        ray_reaches(ring, end_x),
        0 <= i < ring.len(),
    ensures
        ray_hits_edge(p, end_x, ring[ring_before(ring.len() as int, i)], ring[i]) == climbs(
            ring,
            p,
            i,
        ),
        ring[ring_before(ring.len() as int, i)].y == p.y ==> ring[i].y < p.y,
        ring[i].y == p.y ==> ring[ring_before(ring.len() as int, i)].y > p.y,
{
    let n = ring.len() as int;
    let a = ring[ring_before(n, i)];
    let b = ring[i];
    assert(edge_side(ring, p, i) > 0);
    lemma_edge_hit(p, end_x, a, b);
}

/// A strictly convex outline around `p` has a vertex strictly below `p` and
/// one strictly above.
proof fn lemma_both_sides(ring: Seq<Point>, p: Point, end_x: int) -> (r: (int, int))
    requires
        ring.len() >= 3,
        strictly_convex(ring),
        strictly_inside(ring, p),
        ray_avoids_vertices(ring, p),
        ray_reaches(ring, end_x),
    ensures
        0 <= r.0 < ring.len(),
        0 <= r.1 < ring.len(),
        ring[r.0].y < p.y,
        ring[r.1].y > p.y,
{
    let n = ring.len() as int;
    let lo = lemma_lowest(ring, n);
    let hi = lemma_highest(ring, n);
    let lo_before = ring_before(n, lo);
    let lo_after = ring_after(n, lo);
    let hi_before = ring_before(n, hi);
    let hi_after = ring_after(n, hi);
    assert(ring_before(n, lo_after) == lo);
    assert(ring_before(n, hi_after) == hi);
    lemma_corner_turns(ring, lo);
    lemma_corner_turns(ring, hi);
    assert(edge_side(ring, p, lo) > 0);
    assert(edge_side(ring, p, lo_after) > 0);
    assert(edge_side(ring, p, hi) > 0);
    assert(edge_side(ring, p, hi_after) > 0);
    lemma_corner(ring[lo_before], ring[lo], ring[lo_after], p);
    lemma_corner(ring[hi_before], ring[hi], ring[hi_after], p);
    assert(ring[lo].y <= ring[lo_before].y && ring[lo].y <= ring[lo_after].y);
    assert(ring[hi].y >= ring[hi_before].y && ring[hi].y >= ring[hi_after].y);
    lemma_edge_at(ring, p, end_x, lo);
    lemma_edge_at(ring, p, end_x, lo_after);
    lemma_edge_at(ring, p, end_x, hi);
    lemma_edge_at(ring, p, end_x, hi_after);
    (lo, hi)
}

/// Without a climbing edge, a vertex below `p` would be followed by vertices
/// below `p` all the way to the end of the ring.
proof fn lemma_stays_below(ring: Seq<Point>, p: Point, end_x: int, from: int, to: int)
    requires
        ring.len() >= 3,
        strictly_inside(ring, p),
        ray_avoids_vertices(ring, p),
        ray_reaches(ring, end_x),
        0 <= from <= to < ring.len(),
        ring[from].y < p.y,
        forall|i: int| 0 <= i < ring.len() ==> !#[trigger] climbs(ring, p, i),
    ensures
        ring[to].y < p.y,
    decreases to - from,
{
    if from < to {
        lemma_stays_below(ring, p, end_x, from, to - 1);
        lemma_edge_at(ring, p, end_x, to);
        assert(!climbs(ring, p, to));
    }
}

/// Some edge of a strictly convex outline around `p` climbs past `p`.
proof fn lemma_some_edge_climbs(ring: Seq<Point>, p: Point, end_x: int) -> (i: int)
    requires
        ring.len() >= 3,
        strictly_convex(ring),
        strictly_inside(ring, p),
        ray_avoids_vertices(ring, p),
        ray_reaches(ring, end_x),
    ensures
        0 <= i < ring.len(),
        climbs(ring, p, i),
{
    let n = ring.len() as int;
    let (below, above) = lemma_both_sides(ring, p, end_x);
    if exists|i: int| 0 <= i < n && #[trigger] climbs(ring, p, i) {
        choose|i: int| 0 <= i < n && #[trigger] climbs(ring, p, i)
    } else {
        lemma_stays_below(ring, p, end_x, below, n - 1);
        lemma_edge_at(ring, p, end_x, 0);
        assert(!climbs(ring, p, 0));
        assert(ring[0].y < p.y);
        lemma_stays_below(ring, p, end_x, 0, above);
        assert(false);
        0
    }
}

/// At most one edge of a strictly convex outline climbs past `p`.
proof fn lemma_one_edge_climbs(ring: Seq<Point>, p: Point, i: int, j: int)
    requires
        ring.len() >= 3,
        strictly_convex(ring),
        0 <= i <= j < ring.len(),
        climbs(ring, p, i),
        climbs(ring, p, j),
    ensures
        i == j,
{
    let n = ring.len() as int;
    if i == j {
    } else if i == 0 {
        // the vertices 0, j - 1, j, n - 1 alternate: above, below, above, below
        let (a, b, c, d) = (ring[0], ring[j - 1], ring[j], ring[n - 1]);
        assert(0 < j - 1 && j < n - 1);
        assert(orient(b, c, d) > 0);
        assert(orient(a, c, d) > 0);
        assert(orient(a, b, d) > 0);
        assert(orient(a, b, c) > 0);
        lemma_no_alternation(a, b, c, d, p.y);
    } else {
        // the vertices i - 1, i, j - 1, j alternate: below, above, below, above
        let (a, b, c, d) = (ring[i - 1], ring[i], ring[j - 1], ring[j]);
        assert(i < j - 1);
        assert(orient(b, c, d) > 0);
        assert(orient(a, c, d) > 0);
        assert(orient(a, b, d) > 0);
        assert(orient(a, b, c) > 0);
        lemma_no_alternation(a, b, c, d, p.y);
    }
}

/// When only edge `only` counts, the ray has crossed one edge once that edge
/// is among the first `k`, and none before.
proof fn lemma_count(ring: Seq<Point>, p: Point, end_x: int, only: int, k: int)
    requires
        0 <= only < ring.len(),
        0 <= k <= ring.len(),
        forall|i: int|
            0 <= i < ring.len() ==> (#[trigger] ray_hits_edge(
                p,
                end_x,
                ring[ring_before(ring.len() as int, i)],
                ring[i],
            ) == (i == only)),
    ensures
        crossings(ring, p, end_x, k) == if only < k {
            1int
        } else {
            0int
        },
    decreases k,
{
    if k > 0 {
        lemma_count(ring, p, end_x, only, k - 1);
    }
}

/// `p` lies strictly on the right of every edge of the ring: strictly inside
/// a convex, clockwise outline.
pub open spec fn strictly_inside_clockwise(ring: Seq<Point>, p: Point) -> bool {
    forall|i: int| 0 <= i < ring.len() ==> #[trigger] edge_side(ring, p, i) < 0
}

/// `p` lies strictly inside the strictly convex outline `ring`, whichever
/// way the outline runs: on the left of every edge of a counter-clockwise
/// outline, on the right of every edge of a clockwise one.
pub open spec fn strictly_within(ring: Seq<Point>, p: Point) -> bool {
    ||| strictly_convex(ring) && strictly_inside(ring, p)
    ||| strictly_convex_clockwise(ring) && strictly_inside_clockwise(ring, p)
}

/// A point strictly inside a clockwise outline is, mirrored, strictly inside
/// the mirror image, which runs counter-clockwise.
proof fn lemma_mirror_inside(ring: Seq<Point>, p: Point)
    requires
        strictly_convex_clockwise(ring),
        strictly_inside_clockwise(ring, p),
    ensures
        strictly_convex(mirrored(ring)),
        strictly_inside(mirrored(ring), mirror(p)),
{
    let n = ring.len() as int;
    let image = mirrored(ring);
    lemma_mirror_convex(ring);
    assert forall|i: int| 0 <= i < image.len() implies #[trigger] edge_side(image, mirror(p), i)
        > 0 by {
        assert(edge_side(ring, p, i) < 0);
        lemma_mirror_orient(ring[ring_before(n, i)], ring[i], p);
    }
}

/// A point strictly inside the mirror image of a clockwise outline is the
/// mirror image of a point strictly inside the outline.
proof fn lemma_mirror_inside_back(ring: Seq<Point>, p: Point)
    requires
        strictly_inside(mirrored(ring), mirror(p)),
    ensures
        strictly_inside_clockwise(ring, p),
{
    let n = ring.len() as int;
    let image = mirrored(ring);
    assert forall|i: int| 0 <= i < ring.len() implies #[trigger] edge_side(ring, p, i) < 0 by {
        assert(edge_side(image, mirror(p), i) > 0);
        lemma_mirror_orient(ring[ring_before(n, i)], ring[i], p);
    }
}

/// The parity test counts an edge and its mirror image alike.
proof fn lemma_mirror_hit(p: Point, end_x: int, a: Point, b: Point)
    ensures
        ray_hits_edge(mirror(p), end_x, mirror(a), mirror(b)) == ray_hits_edge(p, end_x, a, b),
{
    lemma_mirror_orient(a, b, p);
}

/// The parity ray crosses as many edges of the mirror image, seen from the
/// mirror image of the point.
proof fn lemma_mirror_crossings(ring: Seq<Point>, p: Point, end_x: int, k: int)
    requires
        0 <= k <= ring.len(),
    ensures
        crossings(mirrored(ring), mirror(p), end_x, k) == crossings(ring, p, end_x, k),
    decreases k,
{
    if k > 0 {
        let n = ring.len() as int;
        lemma_mirror_crossings(ring, p, end_x, k - 1);
        lemma_mirror_hit(p, end_x, ring[ring_before(n, k - 1)], ring[k - 1]);
    }
}

/// The ray from a point strictly inside a strictly convex outline crosses
/// exactly one edge, whichever way the outline runs, provided that the ray
/// passes through no vertex and reaches beyond the outline. By the even-odd
/// rule the point is inside.
pub proof fn lemma_interior_is_inside(ring: Seq<Point>, p: Point, end_x: int)
    requires
        ring.len() >= 3,
        strictly_within(ring, p),
        ray_avoids_vertices(ring, p),
        ray_reaches(ring, end_x),
    ensures
        crossings(ring, p, end_x, ring.len() as int) == 1,
        inside(ring, p, end_x),
{
    if strictly_convex(ring) && strictly_inside(ring, p) {
        lemma_interior_upright(ring, p, end_x);
    } else {
        let image = mirrored(ring);
        lemma_mirror_inside(ring, p);
        assert forall|i: int| 0 <= i < image.len() implies !on_ray(mirror(p), #[trigger] image[i])
            && image[i].x <= end_x by {
            assert(!on_ray(p, ring[i]));
            assert(ring[i].x <= end_x);
        }
        lemma_interior_upright(image, mirror(p), end_x);
        lemma_mirror_crossings(ring, p, end_x, ring.len() as int);
    }
}

/// The ray from a point strictly inside a strictly convex, counter-clockwise
/// outline crosses exactly one edge.
proof fn lemma_interior_upright(ring: Seq<Point>, p: Point, end_x: int)
    requires
        ring.len() >= 3,
        strictly_convex(ring),
        strictly_inside(ring, p),
        ray_avoids_vertices(ring, p),
        ray_reaches(ring, end_x),
    ensures
        crossings(ring, p, end_x, ring.len() as int) == 1,
        inside(ring, p, end_x),
{
    let n = ring.len() as int;
    let only = lemma_some_edge_climbs(ring, p, end_x);
    assert forall|i: int| 0 <= i < n implies (#[trigger] ray_hits_edge(
        p,
        end_x,
        ring[ring_before(n, i)],
        ring[i],
    ) == (i == only)) by {
        lemma_edge_at(ring, p, end_x, i);
        if climbs(ring, p, i) && i != only {
            if i < only {
                lemma_one_edge_climbs(ring, p, i, only);
            } else {
                lemma_one_edge_climbs(ring, p, only, i);
            }
        }
    }
    lemma_count(ring, p, end_x, only, n);
}

/// Every vertex of a strictly convex outline that is not an end of an edge
/// lies strictly on the left of that edge.
proof fn lemma_edge_sees_vertex(ring: Seq<Point>, i: int, j: int)
    requires
        ring.len() >= 3,
        strictly_convex(ring),
        0 <= i < ring.len(),
        0 <= j < ring.len(),
        j != i,
        j != ring_before(ring.len() as int, i),
    ensures
        orient(ring[ring_before(ring.len() as int, i)], ring[i], ring[j]) > 0,
{
    let n = ring.len() as int;
    if i == 0 {
        assert(orient(ring[0], ring[j], ring[n - 1]) > 0);
        lemma_orient_cycle(ring[0], ring[j], ring[n - 1]);
    } else if j > i {
        assert(orient(ring[i - 1], ring[i], ring[j]) > 0);
    } else {
        assert(orient(ring[j], ring[i - 1], ring[i]) > 0);
        lemma_orient_cycle(ring[j], ring[i - 1], ring[i]);
    }
}

/// The sum of the doubled areas of the triangles that the edge from `a` to
/// `b` forms with each of the first `k` vertices.
spec fn fan_over_edge(ring: Seq<Point>, a: Point, b: Point, k: int) -> int
    decreases k,
{
    if k <= 0 {
        0
    } else {
        fan_over_edge(ring, a, b, k - 1) + orient(a, b, ring[k - 1])
    }
}

/// The triangles over an edge add up to the triangle over the edge with the
/// sum of the vertices, taken `k` times from `a`.
proof fn lemma_fan_over_edge_sum(ring: Seq<Point>, a: Point, b: Point, k: int)
    requires
        0 <= k <= ring.len(),
    ensures
        fan_over_edge(ring, a, b, k) == (b.x - a.x) * (sum_y(ring, k) - k * a.y) - (b.y - a.y) * (
        sum_x(ring, k) - k * a.x),
    decreases k,
{
    if k > 0 {
        lemma_fan_over_edge_sum(ring, a, b, k - 1);
        let v = ring[k - 1];
        let (dx, dy) = (b.x - a.x, b.y - a.y);
        let (sx, sy) = (sum_x(ring, k - 1) - (k - 1) * a.x, sum_y(ring, k - 1) - (k - 1) * a.y);
        let (tx, ty) = (sum_x(ring, k) - k * a.x, sum_y(ring, k) - k * a.y);
        assert(tx == sx + (v.x - a.x)) by (nonlinear_arith)
            requires
                tx == sum_x(ring, k - 1) + v.x - k * a.x,
                sx == sum_x(ring, k - 1) - (k - 1) * a.x,
        ;
        assert(ty == sy + (v.y - a.y)) by (nonlinear_arith)
            requires
                ty == sum_y(ring, k - 1) + v.y - k * a.y,
                sy == sum_y(ring, k - 1) - (k - 1) * a.y,
        ;
        assert(dx * ty - dy * tx == (dx * sy - dy * sx) + (dx * (v.y - a.y) - dy * (v.x - a.x)))
            by (nonlinear_arith)
            requires
                tx == sx + (v.x - a.x),
                ty == sy + (v.y - a.y),
        ;
    } else {
        assert((b.x - a.x) * (0 - 0 * a.y) - (b.y - a.y) * (0 - 0 * a.x) == 0)
            by (nonlinear_arith);
    }
}

/// The triangles over an edge of a strictly convex outline have a positive
/// sum as soon as a vertex off the edge is among them.
proof fn lemma_fan_over_edge_positive(ring: Seq<Point>, i: int, witness: int, k: int)
    requires
        ring.len() >= 3,
        strictly_convex(ring),
        0 <= i < ring.len(),
        0 <= witness < ring.len(),
        witness != i,
        witness != ring_before(ring.len() as int, i),
        0 <= k <= ring.len(),
    ensures
        fan_over_edge(ring, ring[ring_before(ring.len() as int, i)], ring[i], k) >= 0,
        witness < k ==> fan_over_edge(ring, ring[ring_before(ring.len() as int, i)], ring[i], k)
            > 0,
    decreases k,
{
    if k > 0 {
        let n = ring.len() as int;
        let a = ring[ring_before(n, i)];
        let b = ring[i];
        lemma_fan_over_edge_positive(ring, i, witness, k - 1);
        if k - 1 == i || k - 1 == ring_before(n, i) {
            assert(orient(a, b, ring[k - 1]) == 0) by (nonlinear_arith)
                requires
                    ring[k - 1] == a || ring[k - 1] == b,
                    orient(a, b, ring[k - 1]) == (b.x - a.x) * (ring[k - 1].y - a.y) - (b.y - a.y)
                        * (ring[k - 1].x - a.x),
            ;
        } else {
            lemma_edge_sees_vertex(ring, i, k - 1);
        }
    }
}

/// Mirroring keeps the sum of the x coordinates and negates that of the y
/// coordinates.
proof fn lemma_mirror_sums(ring: Seq<Point>, k: int)
    requires
        0 <= k <= ring.len(),
    ensures
        sum_x(mirrored(ring), k) == sum_x(ring, k),
        sum_y(mirrored(ring), k) == -sum_y(ring, k),
    decreases k,
{
    if k > 0 {
        lemma_mirror_sums(ring, k - 1);
    }
}

/// The centroid of a strictly convex outline lies strictly inside it,
/// whichever way the outline runs. The centroid is taken exactly: the vertex
/// sums are `n` times its coordinates.
pub proof fn lemma_centroid_is_strictly_inside(ring: Seq<Point>, c: Point)
    requires
        ring.len() >= 3,
        strictly_convex(ring) || strictly_convex_clockwise(ring),
        ring.len() * c.x == sum_x(ring, ring.len() as int),
        ring.len() * c.y == sum_y(ring, ring.len() as int),
    ensures
        strictly_within(ring, c),
{
    if strictly_convex(ring) {
        lemma_centroid_upright(ring, c);
    } else {
        let n = ring.len() as int;
        lemma_mirror_convex(ring);
        lemma_mirror_sums(ring, n);
        assert(n * (-c.y) == -(n * c.y)) by (nonlinear_arith);
        lemma_centroid_upright(mirrored(ring), mirror(c));
        lemma_mirror_inside_back(ring, c);
    }
}

/// The centroid of a strictly convex, counter-clockwise outline lies
/// strictly on the left of every edge.
proof fn lemma_centroid_upright(ring: Seq<Point>, c: Point)
    requires
        ring.len() >= 3,
        strictly_convex(ring),
        ring.len() * c.x == sum_x(ring, ring.len() as int),
        ring.len() * c.y == sum_y(ring, ring.len() as int),
    ensures
        strictly_inside(ring, c),
{
    let n = ring.len() as int;
    assert forall|i: int| 0 <= i < n implies #[trigger] edge_side(ring, c, i) > 0 by {
        let a = ring[ring_before(n, i)];
        let b = ring[i];
        let witness = if i == 0 {
            1int
        } else if i == 1 {
            2int
        } else {
            0int
        };
        lemma_fan_over_edge_sum(ring, a, b, n);
        lemma_fan_over_edge_positive(ring, i, witness, n);
        let total = fan_over_edge(ring, a, b, n);
        let side = orient(a, b, c);
        assert(n * side == total) by (nonlinear_arith)
            requires
                side == (b.x - a.x) * (c.y - a.y) - (b.y - a.y) * (c.x - a.x),
                total == (b.x - a.x) * (n * c.y - n * a.y) - (b.y - a.y) * (n * c.x - n * a.x),
        ;
        assert(side > 0) by (nonlinear_arith)
            requires
                n * side == total,
                total > 0,
                n > 0,
        ;
    }
}

/// The sum of the x coordinates of points in a box lies between the bounds
/// of the box, taken as many times.
proof fn lemma_sum_in_box(ring: Seq<Point>, lo: Point, hi: Point, k: int)
    requires
        0 <= k <= ring.len(),
        forall|i: int|
            0 <= i < ring.len() ==> lo.x <= (#[trigger] ring[i]).x <= hi.x && lo.y <= ring[i].y
                <= hi.y,
    ensures
        k * lo.x <= sum_x(ring, k) <= k * hi.x,
        k * lo.y <= sum_y(ring, k) <= k * hi.y,
    decreases k,
{
    if k > 0 {
        lemma_sum_in_box(ring, lo, hi, k - 1);
        let v = ring[k - 1];
        assert(k * lo.x == (k - 1) * lo.x + lo.x && k * hi.x == (k - 1) * hi.x + hi.x && k * lo.y
            == (k - 1) * lo.y + lo.y && k * hi.y == (k - 1) * hi.y + hi.y) by (nonlinear_arith);
    } else {
        assert(0 * lo.x == 0 && 0 * hi.x == 0 && 0 * lo.y == 0 && 0 * hi.y == 0)
            by (nonlinear_arith);
    }
}

/// `p` lies strictly on the left of every edge of the ring that has a
/// length: strictly inside a convex, counter-clockwise outline, whether or
/// not some of its vertices lie in line or coincide.
pub open spec fn left_of_edges(ring: Seq<Point>, p: Point) -> bool {
    forall|i: int|
        0 <= i < ring.len() ==> #[trigger] edge_side(ring, p, i) > 0 || ring[ring_before(
            ring.len() as int,
            i,
        )] == ring[i]
}

/// For an edge of an outline that has `p` on the left of its edges, the
/// parity test counts the edge exactly when it climbs past `p`, and an end
/// at the height of `p` is not preceded by an end below.
proof fn lemma_flat_edge_at(ring: Seq<Point>, p: Point, end_x: int, i: int)
    requires
        ring.len() >= 3,
        left_of_edges(ring, p),
        ray_avoids_vertices(ring, p),
        ray_reaches(ring, end_x),
        0 <= i < ring.len(),
    ensures
        ray_hits_edge(p, end_x, ring[ring_before(ring.len() as int, i)], ring[i]) == climbs(
            ring,
            p,
            i,
        ),
        ring[i].y == p.y ==> ring[ring_before(ring.len() as int, i)].y >= p.y,
{
    let n = ring.len() as int;
    let a = ring[ring_before(n, i)];
    let b = ring[i];
    assert(edge_side(ring, p, i) > 0 || a == b);
    assert(!on_ray(p, a) && !on_ray(p, b));
    assert(a.x <= end_x && b.x <= end_x);
    if a != b {
        lemma_edge_hit(p, end_x, a, b);
    }
}

/// Without a climbing edge, a vertex below `p` is followed by vertices below
/// `p` all the way to the end of the ring.
proof fn lemma_flat_stays_below(ring: Seq<Point>, p: Point, end_x: int, from: int, to: int)
    requires
        ring.len() >= 3,
        left_of_edges(ring, p),
        ray_avoids_vertices(ring, p),
        ray_reaches(ring, end_x),
        0 <= from <= to < ring.len(),
        ring[from].y < p.y,
        forall|i: int| 0 <= i < ring.len() ==> !#[trigger] climbs(ring, p, i),
    ensures
        ring[to].y < p.y,
    decreases to - from,
{
    if from < to {
        lemma_flat_stays_below(ring, p, end_x, from, to - 1);
        lemma_flat_edge_at(ring, p, end_x, to);
        assert(!climbs(ring, p, to));
    }
}

/// Some edge climbs past `p`, given a vertex below `p` and a vertex above.
proof fn lemma_flat_some_edge_climbs(
    ring: Seq<Point>,
    p: Point,
    end_x: int,
    below: int,
    above: int,
) -> (i: int)
    requires
        ring.len() >= 3,
        left_of_edges(ring, p),
        ray_avoids_vertices(ring, p),
        ray_reaches(ring, end_x),
        0 <= below < ring.len(),
        0 <= above < ring.len(),
        ring[below].y < p.y,
        ring[above].y > p.y,
    ensures
        0 <= i < ring.len(),
        climbs(ring, p, i),
{
    let n = ring.len() as int;
    if exists|i: int| 0 <= i < n && #[trigger] climbs(ring, p, i) {
        choose|i: int| 0 <= i < n && #[trigger] climbs(ring, p, i)
    } else {
        lemma_flat_stays_below(ring, p, end_x, below, n - 1);
        lemma_flat_edge_at(ring, p, end_x, 0);
        assert(!climbs(ring, p, 0));
        assert(ring[0].y < p.y);
        lemma_flat_stays_below(ring, p, end_x, 0, above);
        assert(false);
        0
    }
}

/// Between a vertex above the height `h` and a later vertex below it, some
/// edge leads from above `h` down to `h` or below.
proof fn lemma_descent(ring: Seq<Point>, h: int, from: int, to: int) -> (m: int)
    requires
        0 <= from < to < ring.len(),
        ring[from].y > h,
        ring[to].y <= h,
    ensures
        from < m <= to,
        ring[m - 1].y > h,
        ring[m].y <= h,
    decreases to - from,
{
    if ring[to - 1].y > h {
        to
    } else {
        lemma_descent(ring, h, from, to - 1)
    }
}

/// Four points in boundary order, none of whose triangles turns clockwise,
/// that lie in turn below, above, not above, and above a horizontal line,
/// lie on one line.
proof fn lemma_alternation_is_flat(a: Point, b: Point, c: Point, d: Point, h: int)
    requires
        orient(b, c, d) >= 0,
        orient(a, c, d) >= 0,
        orient(a, b, d) >= 0,
        orient(a, b, c) >= 0,
        a.y < h,
        b.y > h,
        c.y <= h,
        d.y > h,
    ensures
        orient(b, c, d) == 0,
        orient(a, c, d) == 0,
        orient(a, b, d) == 0,
        orient(a, b, c) == 0,
{
    let wa = orient(b, c, d);
    let wb = orient(a, c, d);
    let wc = orient(a, b, d);
    let wd = orient(a, b, c);
    let (ha, hb, hc, hd) = (a.y - h, b.y - h, c.y - h, d.y - h);
    lemma_heights_balance(a, b, c, d, h);
    assert(wa * ha <= 0 && wb * hb >= 0 && wc * hc <= 0 && wd * hd >= 0) by (nonlinear_arith)
        requires
            wa >= 0,
            wb >= 0,
            wc >= 0,
            wd >= 0,
            ha < 0,
            hb > 0,
            hc <= 0,
            hd > 0,
    ;
    assert(wa == 0 && wb == 0 && wd == 0) by (nonlinear_arith)
        requires
            wa * ha == 0,
            wb * hb == 0,
            wd * hd == 0,
            ha < 0,
            hb > 0,
            hd > 0,
    ;
}

/// For two points `u` and `v` on the line through `a` and `d`, the side of
/// a point `p` seen from `u` to `v` compares with its side seen from `a` to
/// `d` as the rise from `u` to `v` compares with the rise from `a` to `d`.
proof fn lemma_same_line(a: Point, d: Point, u: Point, v: Point, p: Point)
    requires
        orient(a, d, u) == 0,
        orient(a, d, v) == 0,
    ensures
        orient(u, v, p) * (d.y - a.y) == (v.y - u.y) * orient(a, d, p),
{
    let (dx, dy) = (d.x - a.x, d.y - a.y);
    let (ux, uy) = (u.x - a.x, u.y - a.y);
    let (vx, vy) = (v.x - a.x, v.y - a.y);
    let (px, py) = (p.x - a.x, p.y - a.y);
    let side = orient(a, d, p);
    assert(side == dx * py - dy * px);
    assert(dx * uy - dy * ux == 0);
    assert(dx * vy - dy * vx == 0);
    // (x cross p) * d.y == (d cross p) * x.y + (x cross d) * p.y, for u and v
    lemma_jacobi(vx, vy, px, py, dx, dy);
    lemma_jacobi(ux, uy, px, py, dx, dy);
    lemma_jacobi(vx, vy, ux, uy, dx, dy);
    let (vp, up, vu) = (vx * py - vy * px, ux * py - uy * px, vx * uy - vy * ux);
    let (vd, ud, du) = (vx * dy - vy * dx, ux * dy - uy * dx, dx * uy - dy * ux);
    assert(vd == 0 && ud == 0) by (nonlinear_arith)
        requires
            dx * vy - dy * vx == 0,
            dx * uy - dy * ux == 0,
            vd == vx * dy - vy * dx,
            ud == ux * dy - uy * dx,
    ;
    assert(vd * py == 0 && ud * py == 0 && vd * uy == 0 && du * vy == 0) by (nonlinear_arith)
        requires
            vd == 0,
            ud == 0,
            du == 0,
    ;
    assert(vp * dy == side * vy);
    assert(up * dy == side * uy);
    assert(vu * dy == 0);
    let across = orient(u, v, p);
    assert(across == vp - up - vu) by (nonlinear_arith)
        requires
            across == (v.x - u.x) * (p.y - u.y) - (v.y - u.y) * (p.x - u.x),
            vp == (v.x - a.x) * (p.y - a.y) - (v.y - a.y) * (p.x - a.x),
            up == (u.x - a.x) * (p.y - a.y) - (u.y - a.y) * (p.x - a.x),
            vu == (v.x - a.x) * (u.y - a.y) - (v.y - a.y) * (u.x - a.x),
    ;
    assert(across * dy == (vy - uy) * side) by (nonlinear_arith)
        requires
            across == vp - up - vu,
            vp * dy == side * vy,
            up * dy == side * uy,
            vu * dy == 0,
    ;
}

/// An edge that leads down along the line of an edge that climbs past `p`
/// does not have `p` on its left, when `p` lies on the left of the climbing
/// edge. `a` and `b` are the ends of the climbing edge, `u` and `v` those of
/// the other, and `d` a point above `p` on the line of both.
proof fn lemma_edges_on_one_line(a: Point, b: Point, d: Point, u: Point, v: Point, p: Point)
    requires
        a.y < p.y < b.y,
        d.y > p.y,
        u.y > p.y >= v.y,
        orient(a, b, d) == 0,
        orient(a, u, d) == 0,
        orient(a, v, d) == 0,
        orient(a, b, p) > 0,
    ensures
        orient(u, v, p) < 0,
{
    lemma_orient_swap(a, b, d);
    lemma_orient_swap(a, u, d);
    lemma_orient_swap(a, v, d);
    lemma_orient_expanded(a, d, a);
    assert(orient(a, d, a) == 0) by (nonlinear_arith)
        requires
            orient(a, d, a) == (d.x * a.y - d.x * a.y - a.x * a.y) - (d.y * a.x - d.y * a.x - a.y
                * a.x),
    ;
    lemma_same_line(a, d, a, b, p);
    lemma_same_line(a, d, u, v, p);
    let side = orient(a, d, p);
    let (first, second) = (orient(a, b, p), orient(u, v, p));
    let (rise, up, down) = (d.y - a.y, b.y - a.y, v.y - u.y);
    assert(side > 0) by (nonlinear_arith)
        requires
            first * rise == up * side,
            first > 0,
            rise > 0,
            up > 0,
    ;
    assert(second < 0) by (nonlinear_arith)
        requires
            second * rise == down * side,
            side > 0,
            rise > 0,
            down < 0,
    ;
}

/// At most one edge of a convex outline climbs past a point on the left of
/// its edges.
proof fn lemma_flat_one_edge_climbs(ring: Seq<Point>, p: Point, i: int, j: int)
    requires
        ring.len() >= 3,
        convex(ring),
        left_of_edges(ring, p),
        0 <= i <= j < ring.len(),
        climbs(ring, p, i),
        climbs(ring, p, j),
    ensures
        i == j,
{
    let n = ring.len() as int;
    let h = p.y;
    if i == j {
    } else if i == 0 {
        let (a, b, c, d) = (ring[n - 1], ring[0], ring[j - 1], ring[j]);
        assert(0 < j - 1 && j < n - 1);
        assert(turn(ring, 0, j - 1, j) >= 0);
        assert(turn(ring, 0, j - 1, n - 1) >= 0);
        assert(turn(ring, 0, j, n - 1) >= 0);
        assert(turn(ring, j - 1, j, n - 1) >= 0);
        lemma_orient_cycle(b, d, a);
        lemma_orient_cycle(b, c, a);
        lemma_orient_cycle(b, c, d);
        lemma_alternation_is_flat(c, d, a, b, h);
        lemma_orient_cycle(a, b, d);
        let m = lemma_descent(ring, h, 0, j - 1);
        let (u, v) = (ring[m - 1], ring[m]);
        assert(turn(ring, m - 1, m, j) >= 0);
        assert(turn(ring, m, j, n - 1) >= 0);
        assert(turn(ring, m - 1, j, n - 1) >= 0);
        assert(turn(ring, m - 1, m, n - 1) >= 0);
        lemma_orient_cycle(v, d, a);
        lemma_orient_cycle(u, d, a);
        lemma_orient_cycle(u, v, a);
        lemma_alternation_is_flat(a, u, v, d, h);
        assert(edge_side(ring, p, 0) > 0 || a == b);
        assert(edge_side(ring, p, m) > 0 || u == v);
        lemma_edges_on_one_line(a, b, d, u, v, p);
    } else {
        let (a, b, c, d) = (ring[i - 1], ring[i], ring[j - 1], ring[j]);
        assert(i < j - 1);
        assert(turn(ring, i, j - 1, j) >= 0);
        assert(turn(ring, i - 1, j - 1, j) >= 0);
        assert(turn(ring, i - 1, i, j) >= 0);
        assert(turn(ring, i - 1, i, j - 1) >= 0);
        lemma_alternation_is_flat(a, b, c, d, h);
        let m = lemma_descent(ring, h, i, j - 1);
        let (u, v) = (ring[m - 1], ring[m]);
        assert(turn(ring, m - 1, m, j) >= 0);
        assert(turn(ring, i - 1, m, j) >= 0);
        assert(turn(ring, i - 1, m - 1, j) >= 0);
        assert(turn(ring, i - 1, m - 1, m) >= 0);
        lemma_alternation_is_flat(a, u, v, d, h);
        assert(edge_side(ring, p, i) > 0 || a == b);
        assert(edge_side(ring, p, m) > 0 || u == v);
        lemma_edges_on_one_line(a, b, d, u, v, p);
    }
}

/// The ray from a point on the left of the edges of a convex,
/// counter-clockwise outline crosses exactly one edge, given a vertex below
/// the point and a vertex above.
proof fn lemma_flat_interior(ring: Seq<Point>, p: Point, end_x: int, below: int, above: int)
    requires
        ring.len() >= 3,
        convex(ring),
        left_of_edges(ring, p),
        ray_avoids_vertices(ring, p),
        ray_reaches(ring, end_x),
        0 <= below < ring.len(),
        0 <= above < ring.len(),
        ring[below].y < p.y,
        ring[above].y > p.y,
    ensures
        crossings(ring, p, end_x, ring.len() as int) == 1,
{
    let n = ring.len() as int;
    let only = lemma_flat_some_edge_climbs(ring, p, end_x, below, above);
    assert forall|i: int| 0 <= i < n implies (#[trigger] ray_hits_edge(
        p,
        end_x,
        ring[ring_before(n, i)],
        ring[i],
    ) == (i == only)) by {
        lemma_flat_edge_at(ring, p, end_x, i);
        if climbs(ring, p, i) && i != only {
            if i < only {
                lemma_flat_one_edge_climbs(ring, p, i, only);
            } else {
                lemma_flat_one_edge_climbs(ring, p, only, i);
            }
        }
    }
    lemma_count(ring, p, end_x, only, n);
}

/// Every vertex of a convex outline lies on the left of every edge, or on
/// its line.
proof fn lemma_flat_edge_sees_vertex(ring: Seq<Point>, i: int, j: int)
    requires
        ring.len() >= 3,
        convex(ring),
        0 <= i < ring.len(),
        0 <= j < ring.len(),
    ensures
        orient(ring[ring_before(ring.len() as int, i)], ring[i], ring[j]) >= 0,
{
    let n = ring.len() as int;
    let a = ring[ring_before(n, i)];
    let b = ring[i];
    if j == i || j == ring_before(n, i) {
        assert(orient(a, b, ring[j]) == 0) by (nonlinear_arith)
            requires
                ring[j] == a || ring[j] == b,
                orient(a, b, ring[j]) == (b.x - a.x) * (ring[j].y - a.y) - (b.y - a.y) * (
                ring[j].x - a.x),
        ;
    } else if i == 0 {
        assert(turn(ring, 0, j, n - 1) >= 0);
        lemma_orient_cycle(ring[0], ring[j], ring[n - 1]);
    } else if j > i {
        assert(turn(ring, i - 1, i, j) >= 0);
    } else {
        assert(turn(ring, j, i - 1, i) >= 0);
        lemma_orient_cycle(ring[j], ring[i - 1], ring[i]);
    }
}

/// The mirror image of a point in the diagonal: its coordinates exchanged.
spec fn transposed(p: Point) -> Point {
    Point { x: p.y, y: p.x }
}

/// Exchanging the coordinates turns every triangle the other way.
proof fn lemma_transposed_orient(a: Point, b: Point, c: Point)
    ensures
        orient(transposed(a), transposed(b), transposed(c)) == -orient(a, b, c),
{
    let (ux, uy) = (b.x - a.x, b.y - a.y);
    let (wx, wy) = (c.x - a.x, c.y - a.y);
    assert(orient(a, b, c) == ux * wy - uy * wx);
    assert(orient(transposed(a), transposed(b), transposed(c)) == uy * wx - ux * wy);
}

/// Three points on the line through two different points form a triangle
/// without area.
proof fn lemma_three_on_a_line(a: Point, b: Point, x: Point, y: Point, z: Point)
    requires
        a != b,
        orient(a, b, x) == 0,
        orient(a, b, y) == 0,
        orient(a, b, z) == 0,
    ensures
        orient(x, y, z) == 0,
{
    let area = orient(x, y, z);
    if a.y != b.y {
        lemma_same_line(a, b, x, y, z);
        assert(area == 0) by (nonlinear_arith)
            requires
                area * (b.y - a.y) == (y.y - x.y) * 0,
                b.y - a.y != 0,
        ;
    } else {
        let (ta, tb) = (transposed(a), transposed(b));
        let (tx, ty, tz) = (transposed(x), transposed(y), transposed(z));
        lemma_transposed_orient(a, b, x);
        lemma_transposed_orient(a, b, y);
        lemma_transposed_orient(a, b, z);
        lemma_transposed_orient(x, y, z);
        lemma_same_line(ta, tb, tx, ty, tz);
        let flipped = orient(tx, ty, tz);
        assert(flipped == 0) by (nonlinear_arith)
            requires
                flipped * (b.x - a.x) == (y.x - x.x) * 0,
                b.x - a.x != 0,
        ;
    }
}

/// A fan whose triangles have no area has no area.
proof fn lemma_empty_fan(ring: Seq<Point>, k: int)
    requires
        0 <= k <= ring.len() - 2,
        forall|j: int| 1 <= j <= ring.len() - 2 ==> #[trigger] turn(ring, 0, j, j + 1) == 0,
    ensures
        fan_area2(ring, k) == 0,
    decreases k,
{
    if k > 0 {
        lemma_empty_fan(ring, k - 1);
        assert(turn(ring, 0, k, k + 1) == 0);
    }
}

/// An outline with an area has, for each of its edges with a length, a
/// vertex that is not on the line of the edge.
proof fn lemma_vertex_off_edge(ring: Seq<Point>, i: int) -> (k: int)
    requires
        ring.len() >= 3,
        shoelace2(ring) != 0,
        0 <= i < ring.len(),
        ring[ring_before(ring.len() as int, i)] != ring[i],
    ensures
        0 <= k < ring.len(),
        orient(ring[ring_before(ring.len() as int, i)], ring[i], ring[k]) != 0,
{
    let n = ring.len() as int;
    let a = ring[ring_before(n, i)];
    let b = ring[i];
    if exists|k: int| 0 <= k < n && orient(a, b, #[trigger] ring[k]) != 0 {
        choose|k: int| 0 <= k < n && orient(a, b, #[trigger] ring[k]) != 0
    } else {
        assert forall|j: int| 1 <= j <= n - 2 implies #[trigger] turn(ring, 0, j, j + 1) == 0 by {
            assert(orient(a, b, ring[0]) == 0);
            assert(orient(a, b, ring[j]) == 0);
            assert(orient(a, b, ring[j + 1]) == 0);
            lemma_three_on_a_line(a, b, ring[0], ring[j], ring[j + 1]);
        }
        lemma_empty_fan(ring, n - 2);
        lemma_fan_is_shoelace(ring);
        0
    }
}

/// An outline with an area has vertices at different heights: the sum of
/// the heights of the first `k` vertices of an outline none of whose
/// vertices lies below `h` is at least `k` times `h`, and more when one of
/// them lies above `h`.
proof fn lemma_heights_from_below(ring: Seq<Point>, h: int, k: int, above: int)
    requires
        0 <= k <= ring.len(),
        forall|i: int| 0 <= i < ring.len() ==> (#[trigger] ring[i]).y >= h,
    ensures
        sum_y(ring, k) >= k * h,
        0 <= above < k && ring[above].y > h ==> sum_y(ring, k) > k * h,
    decreases k,
{
    if k > 0 {
        lemma_heights_from_below(ring, h, k - 1, above);
        assert(ring[k - 1].y >= h);
        assert(k * h == (k - 1) * h + h) by (nonlinear_arith);
    } else {
        assert(0 * h == 0) by (nonlinear_arith);
    }
}

/// The same from above: the sum of the heights of vertices none of which
/// lies above `h` is at most `k` times `h`, and less when one lies below.
proof fn lemma_heights_from_above(ring: Seq<Point>, h: int, k: int, below: int)
    requires
        0 <= k <= ring.len(),
        forall|i: int| 0 <= i < ring.len() ==> (#[trigger] ring[i]).y <= h,
    ensures
        sum_y(ring, k) <= k * h,
        0 <= below < k && ring[below].y < h ==> sum_y(ring, k) < k * h,
    decreases k,
{
    if k > 0 {
        lemma_heights_from_above(ring, h, k - 1, below);
        assert(ring[k - 1].y <= h);
        assert(k * h == (k - 1) * h + h) by (nonlinear_arith);
    } else {
        assert(0 * h == 0) by (nonlinear_arith);
    }
}

/// An outline whose vertices all have one height has no area.
proof fn lemma_level_outline(ring: Seq<Point>, h: int)
    requires
        ring.len() >= 3,
        forall|i: int| 0 <= i < ring.len() ==> (#[trigger] ring[i]).y == h,
    ensures
        shoelace2(ring) == 0,
{
    let n = ring.len() as int;
    assert forall|j: int| 1 <= j <= n - 2 implies #[trigger] turn(ring, 0, j, j + 1) == 0 by {
        let (a, b, c) = (ring[0], ring[j], ring[j + 1]);
        assert(orient(a, b, c) == 0) by (nonlinear_arith)
            requires
                orient(a, b, c) == (b.x - a.x) * (c.y - a.y) - (b.y - a.y) * (c.x - a.x),
                a.y == b.y,
                a.y == c.y,
        ;
    }
    lemma_empty_fan(ring, n - 2);
    lemma_fan_is_shoelace(ring);
}

/// An outline with an area has a vertex below its centroid and one above.
proof fn lemma_centroid_between(ring: Seq<Point>, c: Point) -> (r: (int, int))
    requires
        ring.len() >= 3,
        shoelace2(ring) != 0,
        ring.len() * c.y == sum_y(ring, ring.len() as int),
    ensures
        0 <= r.0 < ring.len(),
        0 <= r.1 < ring.len(),
        ring[r.0].y < c.y,
        ring[r.1].y > c.y,
{
    let n = ring.len() as int;
    let h = c.y;
    let has_below = exists|i: int| 0 <= i < n && (#[trigger] ring[i]).y < h;
    let has_above = exists|i: int| 0 <= i < n && (#[trigger] ring[i]).y > h;
    if has_below && has_above {
        (
            choose|i: int| 0 <= i < n && (#[trigger] ring[i]).y < h,
            choose|i: int| 0 <= i < n && (#[trigger] ring[i]).y > h,
        )
    } else {
        if !has_below {
            if has_above {
                let above = choose|i: int| 0 <= i < n && (#[trigger] ring[i]).y > h;
                lemma_heights_from_below(ring, h, n, above);
            } else {
                lemma_level_outline(ring, h);
            }
        } else {
            let below = choose|i: int| 0 <= i < n && (#[trigger] ring[i]).y < h;
            lemma_heights_from_above(ring, h, n, below);
        }
        assert(false);
        (0, 0)
    }
}

/// The triangles over an edge of a convex outline have a sum that is not
/// negative, and positive as soon as a vertex off the line of the edge is
/// among them.
proof fn lemma_flat_fan_over_edge(ring: Seq<Point>, i: int, witness: int, k: int)
    requires
        ring.len() >= 3,
        convex(ring),
        0 <= i < ring.len(),
        0 <= witness < ring.len(),
        orient(ring[ring_before(ring.len() as int, i)], ring[i], ring[witness]) != 0,
        0 <= k <= ring.len(),
    ensures
        fan_over_edge(ring, ring[ring_before(ring.len() as int, i)], ring[i], k) >= 0,
        witness < k ==> fan_over_edge(ring, ring[ring_before(ring.len() as int, i)], ring[i], k)
            > 0,
    decreases k,
{
    if k > 0 {
        lemma_flat_fan_over_edge(ring, i, witness, k - 1);
        lemma_flat_edge_sees_vertex(ring, i, k - 1);
    }
}

/// The centroid of a convex, counter-clockwise outline with an area lies
/// strictly on the left of every edge that has a length.
proof fn lemma_centroid_left_of_edges(ring: Seq<Point>, c: Point)
    requires
        ring.len() >= 3,
        convex(ring),
        shoelace2(ring) != 0,
        ring.len() * c.x == sum_x(ring, ring.len() as int),
        ring.len() * c.y == sum_y(ring, ring.len() as int),
    ensures
        left_of_edges(ring, c),
{
    let n = ring.len() as int;
    assert forall|i: int| 0 <= i < n implies #[trigger] edge_side(ring, c, i) > 0 || ring[ring_before(
        n,
        i,
    )] == ring[i] by {
        let a = ring[ring_before(n, i)];
        let b = ring[i];
        if a != b {
            let witness = lemma_vertex_off_edge(ring, i);
            lemma_fan_over_edge_sum(ring, a, b, n);
            lemma_flat_fan_over_edge(ring, i, witness, n);
            let total = fan_over_edge(ring, a, b, n);
            let side = orient(a, b, c);
            assert(n * side == total) by (nonlinear_arith)
                requires
                    side == (b.x - a.x) * (c.y - a.y) - (b.y - a.y) * (c.x - a.x),
                    total == (b.x - a.x) * (n * c.y - n * a.y) - (b.y - a.y) * (n * c.x - n
                        * a.x),
            ;
            assert(side > 0) by (nonlinear_arith)
                requires
                    n * side == total,
                    total > 0,
                    n > 0,
            ;
        }
    }
}

/// The ray from the centroid of a convex, counter-clockwise outline with an
/// area crosses exactly one edge.
proof fn lemma_centroid_crossing(ring: Seq<Point>, c: Point, end_x: int)
    requires
        ring.len() >= 3,
        convex(ring),
        shoelace2(ring) != 0,
        ring.len() * c.x == sum_x(ring, ring.len() as int),
        ring.len() * c.y == sum_y(ring, ring.len() as int),
        ray_avoids_vertices(ring, c),
        ray_reaches(ring, end_x),
    ensures
        crossings(ring, c, end_x, ring.len() as int) == 1,
{
    lemma_centroid_left_of_edges(ring, c);
    let (below, above) = lemma_centroid_between(ring, c);
    lemma_flat_interior(ring, c, end_x, below, above);
}

/// The centroid of a convex shape with an area collides with the shape,
/// whichever way its boundary runs and whether or not some of its vertices
/// lie in line: it lies in the bounding box and, by the even-odd rule,
/// inside the boundary.
///
/// The bounding box is that of the points, the centroid is taken exactly,
/// and no vertex lies on the ray from the centroid: a ray through a vertex
/// counts both edges that meet there.
pub proof fn lemma_centroid_collides(s: ShapeView, c: Point)
    requires
        s.points.len() >= 3,
        convex(positions(s.points)) || convex_clockwise(positions(s.points)),
        shoelace2(positions(s.points)) != 0,
        is_bounding_box(positions(s.points), s.bounding_box.0, s.bounding_box.1),
        s.bounding_box.1.x <= RAW_LIMIT,
        s.points.len() * c.x == sum_x(positions(s.points), s.points.len() as int),
        s.points.len() * c.y == sum_y(positions(s.points), s.points.len() as int),
        ray_avoids_vertices(positions(s.points), c),
    ensures
        detect(c, s).is_some(),
{
    let ring = positions(s.points);
    let n = ring.len() as int;
    let (lo, hi) = s.bounding_box;
    let end_x = ray_end(s);
    if convex(ring) {
        lemma_centroid_crossing(ring, c, end_x);
    } else {
        let image = mirrored(ring);
        lemma_mirror_of_convex(ring);
        lemma_mirror_shoelace(ring);
        lemma_mirror_sums(ring, n);
        assert(n * (-c.y) == -(n * c.y)) by (nonlinear_arith);
        assert forall|i: int| 0 <= i < image.len() implies !on_ray(mirror(c), #[trigger] image[i])
            && image[i].x <= end_x by {
            assert(!on_ray(c, ring[i]));
            assert(ring[i].x <= end_x);
        }
        lemma_centroid_crossing(image, mirror(c), end_x);
        lemma_mirror_crossings(ring, c, end_x, n);
    }
    lemma_sum_in_box(ring, lo, hi, n);
    assert(lo.x <= c.x <= hi.x && lo.y <= c.y <= hi.y) by (nonlinear_arith)
        requires
            n * lo.x <= n * c.x <= n * hi.x,
            n * lo.y <= n * c.y <= n * hi.y,
            n > 0,
    ;
}

} // verus!
