//! Ear-clipping triangulation of an outline, and the mesh topology kept for
//! rendering a deforming body.
use crate::fixed::{fx_div, fx_sub, Fixed};
use crate::geometry::{
    bounding_box_of, bounds_max, bounds_min, fan_area2, in_triangle, lemma_fan_is_shoelace,
    lemma_orient_cycle, lemma_orient_swap, points_of, shoelace2,
};
use crate::vector::{orient, orient_exact, v_sub, Point, Vec2};
use crate::winding::{
    convex, convex_clockwise, lemma_flat_is_convex, lemma_mirror_of_convex,
    lemma_mirror_orient, lemma_mirror_shoelace, mirror_of, mirrored, shoelace_of, turn, upright,
};
use vstd::prelude::*;

verus! {

/// The entry before position `v` of a ring, the last entry preceding the
/// first.
pub open spec fn ring_prev(ring: Seq<usize>, v: int) -> usize {
    if v == 0 {
        ring[ring.len() - 1]
    } else {
        ring[v - 1]
    }
}

/// The entry after position `v` of a ring, the first entry following the
/// last.
pub open spec fn ring_next(ring: Seq<usize>, v: int) -> usize {
    if v == ring.len() - 1 {
        ring[0]
    } else {
        ring[v + 1]
    }
}

/// Every entry of the ring is an index into a sequence of `n` vertices.
pub open spec fn ring_in_bounds(ring: Seq<usize>, n: int) -> bool {
    forall|k: int| 0 <= k < ring.len() ==> (#[trigger] ring[k]) < n
}

/// The ring `0, 1, ..., n - 1`.
pub open spec fn full_ring(n: int) -> Seq<usize> {
    Seq::new(n as nat, |i: int| i as usize)
}

/// The vertex at position `v` of the ring is an ear: the corner it forms
/// with its ring neighbours does not turn clockwise, and no other vertex of
/// the outline lies strictly inside the triangle of the three.
pub open spec fn is_ear(points: Seq<Point>, ring: Seq<usize>, v: int) -> bool {
    let prev = ring_prev(ring, v) as int;
    let vert = ring[v] as int;
    let next = ring_next(ring, v) as int;
    &&& orient(points[prev], points[vert], points[next]) >= 0
    &&& forall|i: int|
        0 <= i < points.len() && i != vert && i != prev && i != next ==> !in_triangle(
            #[trigger] points[i],
            points[prev],
            points[vert],
            points[next],
        )
}

/// Position `v` holds the first ear of the ring, position 0 never being a
/// candidate.
pub open spec fn is_first_ear(points: Seq<Point>, ring: Seq<usize>, v: int) -> bool {
    &&& 1 <= v < ring.len()
    &&& is_ear(points, ring, v)
    &&& forall|u: int| 1 <= u < v ==> !#[trigger] is_ear(points, ring, u)
}

/// The triangles that ear clipping cuts from a ring, three indices each.
///
/// While more than three entries remain, the first ear is cut off as the
/// triangle (ear, predecessor, successor) and removed from the ring; the last
/// three entries form the last triangle. There is no result when some ring
/// on the way has more than three entries and no ear, or when the ring
/// starts with fewer than three.
pub open spec fn clip(points: Seq<Point>, ring: Seq<usize>) -> Option<Seq<usize>>
    decreases ring.len(),
{
    if ring.len() < 3 {
        None
    } else if ring.len() == 3 {
        Some(ring)
    } else if exists|v: int| is_first_ear(points, ring, v) {
        let v = choose|v: int| is_first_ear(points, ring, v);
        match clip(points, ring.remove(v)) {
            Some(rest) => Some(seq![ring[v], ring_prev(ring, v), ring_next(ring, v)] + rest),
            None => None,
        }
    } else {
        None
    }
}

/// The triangulation of an outline, whichever way it runs: ear clipping
/// started from the ring of all its vertices. The corners are judged by the
/// winding of the outline: a clockwise outline is clipped as its mirror
/// image, which runs counter-clockwise and has the same triangles.
pub open spec fn triangulation(points: Seq<Point>) -> Option<Seq<usize>> {
    clip(upright(points), full_ring(points.len() as int))
}

/// The triangles of `rest` with those of `done` in front.
pub open spec fn after(done: Seq<usize>, rest: Option<Seq<usize>>) -> Option<Seq<usize>> {
    match rest {
        Some(t) => Some(done + t),
        None => None,
    }
}

/// The index list of a triangulation result.
pub open spec fn index_seq(r: Option<Vec<usize>>) -> Option<Seq<usize>> {
    match r {
        Some(t) => Some(t@),
        None => None,
    }
}

/// The fan around vertex 0 in the order ear clipping emits it: the
/// triangles `(j, 0, j + 1)` for `j` from `first` to `n - 3`, then
/// `(0, n - 2, n - 1)`.
pub open spec fn fan_from(n: int, first: int) -> Seq<usize>
    decreases n - first,
{
    if first >= n - 2 {
        seq![0usize, (n - 2) as usize, (n - 1) as usize]
    } else {
        seq![first as usize, 0usize, (first + 1) as usize] + fan_from(n, first + 1)
    }
}

/// The sum of the doubled, unsigned areas of the first `k` triangles of an
/// index list.
pub open spec fn area2_sum(points: Seq<Point>, triangles: Seq<usize>, k: int) -> int
    decreases k,
{
    if k <= 0 {
        0
    } else {
        let a = points[triangles[3 * (k - 1)] as int];
        let b = points[triangles[3 * (k - 1) + 1] as int];
        let c = points[triangles[3 * (k - 1) + 2] as int];
        let area = orient(a, b, c);
        area2_sum(points, triangles, k - 1) + if area < 0 {
            -area
        } else {
            area
        }
    }
}

/// A ring has at most one first ear.
pub proof fn lemma_first_ear_unique(points: Seq<Point>, ring: Seq<usize>, v: int, w: int)
    requires
        is_first_ear(points, ring, v),
        is_first_ear(points, ring, w),
    ensures
        v == w,
{
}

/// The ring that is left of a convex outline of `n` vertices once the
/// vertices `1` to `k - 1` have been cut off: `0, k, k + 1, ..., n - 1`.
pub open spec fn fan_ring(n: int, k: int) -> Seq<usize> {
    Seq::new(
        (n - k + 1) as nat,
        |i: int|
            if i == 0 {
                0usize
            } else {
                (k + i - 1) as usize
            },
    )
}

/// The number of indices in the rest of a fan.
pub proof fn lemma_fan_len(n: int, first: int)
    requires
        1 <= first <= n - 2,
    ensures
        fan_from(n, first).len() == 3 * (n - 1 - first),
    decreases n - first,
{
    if first < n - 2 {
        lemma_fan_len(n, first + 1);
    }
}

/// The entries of the rest of a fan: triangle `t` is `(first + t, 0,
/// first + t + 1)`, but for the last one, which is `(0, n - 2, n - 1)`.
pub proof fn lemma_fan_entries(n: int, first: int, t: int)
    requires
        1 <= first <= n - 2,
        0 <= t <= n - 2 - first,
        n <= usize::MAX,
    ensures
        t < n - 2 - first ==> ({
            &&& fan_from(n, first)[3 * t] == first + t
            &&& fan_from(n, first)[3 * t + 1] == 0
            &&& fan_from(n, first)[3 * t + 2] == first + t + 1
        }),
        t == n - 2 - first ==> ({
            &&& fan_from(n, first)[3 * t] == 0
            &&& fan_from(n, first)[3 * t + 1] == n - 2
            &&& fan_from(n, first)[3 * t + 2] == n - 1
        }),
    decreases t,
{
    if first < n - 2 {
        lemma_fan_len(n, first + 1);
        let head = seq![first as usize, 0usize, (first + 1) as usize];
        let tail = fan_from(n, first + 1);
        if t > 0 {
            lemma_fan_entries(n, first + 1, t - 1);
            assert((head + tail)[3 * t] == tail[3 * (t - 1)]);
            assert((head + tail)[3 * t + 1] == tail[3 * (t - 1) + 1]);
            assert((head + tail)[3 * t + 2] == tail[3 * (t - 1) + 2]);
        } else {
            assert((head + tail)[0] == head[0]);
            assert((head + tail)[1] == head[1]);
            assert((head + tail)[2] == head[2]);
        }
    }
}

/// On a convex, counter-clockwise outline the first candidate of a fan ring
/// is always an ear, so clipping cuts the fan around vertex 0.
pub proof fn lemma_clip_convex(points: Seq<Point>, k: int)
    requires
        convex(points),
        1 <= k <= points.len() - 2,
        points.len() <= usize::MAX,
    ensures
        clip(points, fan_ring(points.len() as int, k)) == Some(
            fan_from(points.len() as int, k),
        ),
    decreases points.len() - k,
{
    let n = points.len() as int;
    let ring = fan_ring(n, k);
    if k == n - 2 {
        assert(ring =~= seq![0usize, (n - 2) as usize, (n - 1) as usize]);
    } else {
        let p0 = points[0];
        let pk = points[k];
        let pn = points[k + 1];
        assert(ring[0] == 0 && ring[1] == k && ring[2] == k + 1);
        assert(ring_prev(ring, 1) == 0 && ring_next(ring, 1) == k + 1);
        assert(turn(points, 0, k, k + 1) >= 0);
        assert forall|i: int| 0 <= i < points.len() && i != k && i != 0 && i != k + 1 implies
            !in_triangle(#[trigger] points[i], p0, pk, pn) by {
            let pi = points[i];
            if i < k {
                assert(turn(points, 0, i, k) >= 0);
                lemma_orient_swap(p0, pi, pk);
            } else {
                assert(turn(points, 0, k + 1, i) >= 0);
                lemma_orient_swap(p0, pn, pi);
                lemma_orient_cycle(p0, pi, pn);
            }
        }
        assert(is_ear(points, ring, 1));
        assert(is_first_ear(points, ring, 1));
        let w = choose|w: int| is_first_ear(points, ring, w);
        lemma_first_ear_unique(points, ring, 1, w);
        assert(ring.remove(1) =~= fan_ring(n, k + 1));
        lemma_clip_convex(points, k + 1);
    }
}

/// The unsigned areas of the fan triangles, in the order clipping emits
/// them, add up like the signed areas of the fan.
proof fn lemma_fan_area(points: Seq<Point>, k: int)
    requires
        convex(points),
        points.len() >= 3,
        points.len() <= usize::MAX,
        0 <= k <= points.len() - 2,
    ensures
        area2_sum(points, fan_from(points.len() as int, 1), k) == fan_area2(points, k),
    decreases k,
{
    let n = points.len() as int;
    if k > 0 {
        lemma_fan_area(points, k - 1);
        lemma_fan_entries(n, 1, k - 1);
        let p0 = points[0];
        let pa = points[k];
        let pb = points[k + 1];
        assert(turn(points, 0, k, k + 1) >= 0);
        if k - 1 < n - 3 {
            lemma_orient_cycle(pa, p0, pb);
            lemma_orient_swap(p0, pa, pb);
            assert(orient(pa, p0, pb) == -orient(p0, pa, pb));
        }
    }
}

/// The fan of a convex, counter-clockwise outline has no negative area.
proof fn lemma_fan_not_negative(points: Seq<Point>, k: int)
    requires
        convex(points),
        0 <= k <= points.len() - 2,
    ensures
        fan_area2(points, k) >= 0,
    decreases k,
{
    if k > 0 {
        lemma_fan_not_negative(points, k - 1);
        assert(turn(points, 0, k, k + 1) >= 0);
    }
}

/// The unsigned areas of a list of triangles are the same on the mirror
/// image of the outline.
pub proof fn lemma_mirror_area2_sum(points: Seq<Point>, triangles: Seq<usize>, k: int)
    requires
        0 <= k,
        3 * k <= triangles.len(),
        ring_in_bounds(triangles, points.len() as int),
    ensures
        area2_sum(mirrored(points), triangles, k) == area2_sum(points, triangles, k),
    decreases k,
{
    if k > 0 {
        lemma_mirror_area2_sum(points, triangles, k - 1);
        let a = triangles[3 * (k - 1)] as int;
        let b = triangles[3 * (k - 1) + 1] as int;
        let c = triangles[3 * (k - 1) + 2] as int;
        assert(a < points.len() && b < points.len() && c < points.len());
        lemma_mirror_orient(points[a], points[b], points[c]);
    }
}

/// Every index of a fan is a vertex of the outline.
proof fn lemma_fan_in_bounds(n: int, first: int)
    requires
        1 <= first <= n - 2,
        n <= usize::MAX,
    ensures
        ring_in_bounds(fan_from(n, first), n),
    decreases n - first,
{
    if first < n - 2 {
        lemma_fan_in_bounds(n, first + 1);
        let head = seq![first as usize, 0usize, (first + 1) as usize];
        let tail = fan_from(n, first + 1);
        assert forall|k: int| 0 <= k < (head + tail).len() implies (#[trigger] (head + tail)[k])
            < n by {
            if k >= 3 {
                assert((head + tail)[k] == tail[k - 3]);
            }
        }
    }
}

/// Ear clipping triangulates every convex outline, whichever way it runs
/// and whether or not some of its vertices lie in line: it succeeds, it cuts
/// the fan around vertex 0, which has two triangles fewer than the outline
/// has vertices, and the areas of the triangles add up exactly to the
/// shoelace area of the outline.
///
pub proof fn lemma_convex_triangulation(points: Seq<Point>)
    requires
        points.len() >= 3,
        points.len() <= usize::MAX,
        convex(points) || convex_clockwise(points),
    ensures
        triangulation(points) == Some(fan_from(points.len() as int, 1)),
        fan_from(points.len() as int, 1).len() == 3 * (points.len() - 2),
        area2_sum(points, fan_from(points.len() as int, 1), points.len() - 2) == if shoelace2(
            points,
        ) >= 0 {
            shoelace2(points)
        } else {
            -shoelace2(points)
        },
{
    let n = points.len() as int;
    let image = mirrored(points);
    assert(full_ring(n) =~= fan_ring(n, 1));
    lemma_fan_len(n, 1);
    lemma_mirror_shoelace(points);
    if !convex(points) && shoelace2(points) == 0 {
        lemma_flat_is_convex(points);
    }
    if convex(points) {
        lemma_fan_is_shoelace(points);
        lemma_fan_not_negative(points, n - 2);
        lemma_clip_convex(points, 1);
        lemma_fan_area(points, n - 2);
    } else {
        lemma_mirror_of_convex(points);
        lemma_fan_is_shoelace(image);
        lemma_fan_not_negative(image, n - 2);
        lemma_clip_convex(image, 1);
        lemma_fan_area(image, n - 2);
        lemma_fan_in_bounds(n, 1);
        lemma_mirror_area2_sum(points, fan_from(n, 1), n - 2);
    }
}

/// The ring neighbours of position `i`: the entries before and after it, the
/// ring closing on itself.
pub fn get_adjacent(i: usize, list: &Vec<usize>) -> (r: (usize, usize))
    requires
        list@.len() >= 2,
        i < list@.len(),
    ensures
        r.0 == ring_prev(list@, i as int),
        r.1 == ring_next(list@, i as int),
{
    if i == 0 {
        return (list[list.len() - 1], list[i + 1]);
    }
    if i == list.len() - 1 {
        return (list[i - 1], list[0]);
    }
    (list[i - 1], list[i + 1])
}

/// Whether `p` lies strictly inside the counter-clockwise triangle `a`, `b`,
/// `c`.
pub fn point_in_triangle(p: Vec2, a: Vec2, b: Vec2, c: Vec2) -> (r: bool)
    ensures
        r == in_triangle(p@, a@, b@, c@),
{
    if orient_exact(a, b, p) <= 0 {
        return false;
    }
    if orient_exact(b, c, p) <= 0 {
        return false;
    }
    if orient_exact(c, a, p) <= 0 {
        return false;
    }
    true
}

/// Whether position `v` of the ring holds an ear of the outline `shape`.
fn ear_at(shape: &Vec<Vec2>, indices: &Vec<usize>, v: usize) -> (r: bool)
    requires
        indices@.len() >= 2,
        v < indices@.len(),
        ring_in_bounds(indices@, shape@.len() as int),
    ensures
        r == is_ear(points_of(shape@), indices@, v as int),
{
    let ghost points = points_of(shape@);
    let n = shape.len();
    let vert = indices[v];
    let (prev, next) = get_adjacent(v, indices);
    assert(prev < n && next < n);
    if orient_exact(shape[prev], shape[vert], shape[next]) < 0 {
        return false;
    }
    let mut i: usize = 0;
    while i < n
        invariant
            i <= n,
            n == shape@.len(),
            points == points_of(shape@),
            prev < n,
            vert < n,
            next < n,
            v < indices@.len(),
            prev == ring_prev(indices@, v as int),
            vert == indices@[v as int],
            next == ring_next(indices@, v as int),
            orient(points[prev as int], points[vert as int], points[next as int]) >= 0,
            forall|j: int|
                0 <= j < i && j != vert && j != prev && j != next ==> !in_triangle(
                    #[trigger] points[j],
                    points[prev as int],
                    points[vert as int],
                    points[next as int],
                ),
        decreases n - i,
    {
        if i != vert && i != prev && i != next {
            if point_in_triangle(shape[i], shape[prev], shape[vert], shape[next]) {
                assert(in_triangle(
                    points[i as int],
                    points[prev as int],
                    points[vert as int],
                    points[next as int],
                ));
                return false;
            }
        }
        i += 1;
    }
    true
}

/// Triangulates the outline `shape` by ear clipping.
///
/// The outline may run either way. The result lists three vertex indices
/// per triangle and is `None` when the outline has fewer than three vertices
/// or the clipping gets stuck on a ring without an ear, as it can on an
/// outline that crosses itself. On a convex outline it never gets stuck.
pub fn triangulate(shape: &Vec<Vec2>) -> (r: Option<Vec<usize>>)
    ensures
        index_seq(r) == triangulation(points_of(shape@)),
        r matches Some(t) ==> t@.len() == 3 * (shape@.len() - 2) && ring_in_bounds(
            t@,
            shape@.len() as int,
        ),
{
    let ghost points = points_of(shape@);
    if shoelace_of(shape) < 0 {
        let image = mirror_of(shape);
        assert(upright(points) == points_of(image@));
        assert(points_of(image@).len() == shape@.len());
        assert(image@.len() == shape@.len());
        clip_outline(&image)
    } else {
        assert(upright(points) == points);
        clip_outline(shape)
    }
}

/// Clips the ears of the outline `shape`, taken to run counter-clockwise.
fn clip_outline(shape: &Vec<Vec2>) -> (r: Option<Vec<usize>>)
    ensures
        index_seq(r) == clip(points_of(shape@), full_ring(shape@.len() as int)),
        r matches Some(t) ==> t@.len() == 3 * (shape@.len() - 2) && ring_in_bounds(
            t@,
            shape@.len() as int,
        ),
{
    let ghost points = points_of(shape@);
    let n = shape.len();
    if n < 3 {
        return None;
    }
    let mut indices: Vec<usize> = Vec::new();
    let mut i: usize = 0;
    while i < n
        invariant
            i <= n,
            indices@ == full_ring(i as int),
        decreases n - i,
    {
        indices.push(i);
        assert(indices@ =~= full_ring(i + 1));
        i += 1;
    }
    let mut triangles: Vec<usize> = Vec::new();
    assert(after(triangles@, clip(points, indices@)) == clip(points, indices@)) by {
        match clip(points, indices@) {
            Some(t) => {
                assert(triangles@ + t =~= t);
            },
            None => {},
        }
    }
    while indices.len() > 3
        invariant
            n == shape@.len(),
            points == points_of(shape@),
            3 <= indices@.len() <= n,
            ring_in_bounds(indices@, n as int),
            ring_in_bounds(triangles@, n as int),
            triangles@.len() + 3 * indices@.len() == 3 * n,
            clip(points, full_ring(n as int)) == after(triangles@, clip(points, indices@)),
        decreases indices@.len(),
    {
        let m = indices.len();
        let mut v: usize = 1;
        let mut found = false;
        while v < m && !found
            invariant
                1 <= v <= m,
                m == indices@.len(),
                m > 3,
                points == points_of(shape@),
                ring_in_bounds(indices@, shape@.len() as int),
                found ==> v < m && is_ear(points, indices@, v as int),
                forall|u: int| 1 <= u < v ==> !#[trigger] is_ear(points, indices@, u),
            decreases m - v + (if found { 0int } else { 1int }),
        {
            if ear_at(shape, &indices, v) {
                found = true;
            } else {
                v += 1;
            }
        }
        if !found {
            proof {
                assert forall|w: int| !is_first_ear(points, indices@, w) by {
                    if 1 <= w < indices@.len() {
                        assert(!is_ear(points, indices@, w));
                    }
                }
            }
            return None;
        }
        let vert = indices[v];
        let (prev, next) = get_adjacent(v, &indices);
        proof {
            let ring = indices@;
            assert(is_first_ear(points, ring, v as int));
            let w = choose|w: int| is_first_ear(points, ring, w);
            lemma_first_ear_unique(points, ring, v as int, w);
            let rest = clip(points, ring.remove(v as int));
            let cut = seq![vert, prev, next];
            match rest {
                Some(t) => {
                    assert(triangles@ + (cut + t) =~= (triangles@ + cut) + t);
                },
                None => {},
            }
            assert(after(triangles@, clip(points, ring)) == after(triangles@ + cut, rest));
            assert forall|k: int| 0 <= k < ring.remove(v as int).len() implies (
            #[trigger] ring.remove(v as int)[k]) < n by {
                if k < v {
                    assert(ring.remove(v as int)[k] == ring[k]);
                } else {
                    assert(ring.remove(v as int)[k] == ring[k + 1]);
                }
            }
        }
        let ghost done = triangles@;
        triangles.push(vert);
        triangles.push(prev);
        triangles.push(next);
        indices.remove(v);
        assert(triangles@ =~= done + seq![vert, prev, next]);
    }
    proof {
        assert(clip(points, indices@) == Some(indices@));
        assert(indices@ =~= seq![indices@[0], indices@[1], indices@[2]]);
    }
    let ghost done = triangles@;
    let a = indices[0];
    let b = indices[1];
    let c = indices[2];
    triangles.push(a);
    triangles.push(b);
    triangles.push(c);
    assert(triangles@ =~= done + indices@);
    Some(triangles)
}

/// The texture coordinate of vertex `i`: its position within the bounding
/// box of the outline, as a fraction of the box's width and height. A
/// coordinate is zero where the box has no extent.
pub open spec fn uv_of(points: Seq<Point>, i: int) -> (int, int) {
    let lo = bounds_min(points);
    let range = v_sub(bounds_max(points), lo);
    (
        fx_div(fx_sub(points[i].x, lo.x), range.x),
        fx_div(fx_sub(points[i].y, lo.y), range.y),
    )
}

/// One texture coordinate per vertex of the outline `shape`.
pub fn generate_uv(shape: &Vec<Vec2>) -> (uv: Vec<(Fixed, Fixed)>)
    ensures
        uv@.len() == shape@.len(),
        forall|i: int|
            0 <= i < uv@.len() ==> ((#[trigger] uv@[i]).0@, uv@[i].1@) == uv_of(
                points_of(shape@),
                i,
            ),
{
    let ghost points = points_of(shape@);
    let (lo, hi) = bounding_box_of(shape);
    let range = hi.sub(lo);
    let mut uv: Vec<(Fixed, Fixed)> = Vec::new();
    let n = shape.len();
    let mut i: usize = 0;
    while i < n
        invariant
            i <= n,
            n == shape@.len(),
            points == points_of(shape@),
            lo@ == bounds_min(points),
            range@ == v_sub(bounds_max(points), lo@),
            uv@.len() == i,
            forall|j: int| 0 <= j < i ==> ((#[trigger] uv@[j]).0@, uv@[j].1@) == uv_of(points, j),
        decreases n - i,
    {
        let v = shape[i];
        uv.push((v.x.sub(lo.x).div(range.x), v.y.sub(lo.y).div(range.y)));
        i += 1;
    }
    uv
}

/// The render topology of a soft body: a triangle index list over the
/// vertices of its outline and one texture coordinate per vertex.
///
/// The texture coordinates are fixed when the mesh is generated; the
/// triangles follow the outline as it deforms.
#[derive(Debug)]
pub struct SoftMesh {
    pub tex_coords: Vec<(Fixed, Fixed)>,
    pub indices: Vec<usize>,
}

impl SoftMesh {
    /// The mesh of the rest outline `shape`, or `None` when the outline
    /// cannot be triangulated.
    pub fn generate(shape: &Vec<Vec2>) -> (r: Option<SoftMesh>)
        ensures
            r.is_some() == triangulation(points_of(shape@)).is_some(),
            r matches Some(mesh) ==> {
                &&& Some(mesh.indices@) == triangulation(points_of(shape@))
                &&& mesh.tex_coords@.len() == shape@.len()
                &&& forall|i: int|
                    0 <= i < shape@.len() ==> ((#[trigger] mesh.tex_coords@[i]).0@, mesh.tex_coords@[i].1@)
                        == uv_of(points_of(shape@), i)
            },
    {
        let tex_coords = generate_uv(shape);
        match triangulate(shape) {
            Some(indices) => Some(SoftMesh { tex_coords, indices }),
            None => None,
        }
    }

    /// Retriangulates the mesh for the current outline `points`.
    ///
    /// When the outline cannot be triangulated the previous triangles are
    /// kept. The texture coordinates never change.
    pub fn update_triangles(&mut self, points: &Vec<Vec2>)
        ensures
            final(self).tex_coords == old(self).tex_coords,
            final(self).indices@ == match triangulation(points_of(points@)) {
                Some(t) => t,
                None => old(self).indices@,
            },
    {
        if let Some(triangles) = triangulate(points) {
            self.indices = triangles;
        }
    }
}

} // verus!
