use squish::fixed::Fixed;
use squish::mesh::{generate_uv, get_adjacent, point_in_triangle, triangulate, SoftMesh};
use squish::vector::{orient_exact, Vec2};
use squish::winding::{mirror_of, shoelace_of};

fn outline(points: &[(i64, i64)]) -> Vec<Vec2> {
    points.iter().map(|p| Vec2::from_ints(p.0, p.1)).collect()
}

fn doubled_area(points: &Vec<Vec2>, triangles: &Vec<usize>) -> i128 {
    let mut sum = 0;
    for t in triangles.chunks(3) {
        sum += orient_exact(points[t[0]], points[t[1]], points[t[2]]).abs();
    }
    sum
}

fn shoelace(points: &Vec<Vec2>) -> i128 {
    let n = points.len();
    let mut sum: i128 = 0;
    for i in 0..n {
        let a = points[i];
        let b = points[(i + 1) % n];
        sum += a.x.raw() as i128 * b.y.raw() as i128 - a.y.raw() as i128 * b.x.raw() as i128;
    }
    sum
}

#[test]
fn neighbours_wrap_around_the_ring() {
    let ring = vec![7, 3, 9, 4];
    assert_eq!(get_adjacent(0, &ring), (4, 3));
    assert_eq!(get_adjacent(1, &ring), (7, 9));
    assert_eq!(get_adjacent(3, &ring), (9, 7));
    let pair = vec![5, 6];
    assert_eq!(get_adjacent(0, &pair), (6, 6));
    assert_eq!(get_adjacent(1, &pair), (5, 5));
}

#[test]
fn a_triangle_holds_what_lies_strictly_inside() {
    let a = Vec2::from_ints(0, 0);
    let b = Vec2::from_ints(4, 0);
    let c = Vec2::from_ints(0, 4);
    assert!(point_in_triangle(Vec2::from_ints(1, 1), a, b, c));
    assert!(point_in_triangle(Vec2::new(Fixed::from_raw(1999), Fixed::from_raw(2000)), a, b, c));
    // a side and a corner are not inside
    assert!(!point_in_triangle(Vec2::from_ints(2, 2), a, b, c));
    assert!(!point_in_triangle(Vec2::from_ints(2, 0), a, b, c));
    assert!(!point_in_triangle(a, a, b, c));
    assert!(!point_in_triangle(Vec2::from_ints(3, 3), a, b, c));
    assert!(!point_in_triangle(Vec2::from_ints(-1, 1), a, b, c));
    // given clockwise, the same triangle holds nothing
    assert!(!point_in_triangle(Vec2::from_ints(1, 1), a, c, b));
    // nor does a triangle without area
    assert!(!point_in_triangle(Vec2::from_ints(2, 0), a, b, Vec2::from_ints(8, 0)));
}

#[test]
fn a_triangle_is_its_own_triangulation() {
    let shape = outline(&[(0, 0), (4, 0), (0, 4)]);
    assert_eq!(triangulate(&shape), Some(vec![0, 1, 2]));
}

#[test]
fn a_convex_polygon_is_cut_into_a_fan() {
    let square = outline(&[(0, 0), (4, 0), (4, 4), (0, 4)]);
    assert_eq!(triangulate(&square), Some(vec![1, 0, 2, 0, 2, 3]));
    let pentagon = outline(&[(0, 0), (4, 0), (6, 3), (2, 6), (-2, 3)]);
    assert_eq!(triangulate(&pentagon), Some(vec![1, 0, 2, 2, 0, 3, 0, 3, 4]));
    let hexagon = outline(&[(2, 0), (4, 0), (6, 2), (4, 4), (2, 4), (0, 2)]);
    assert_eq!(triangulate(&hexagon), Some(vec![1, 0, 2, 2, 0, 3, 3, 0, 4, 0, 4, 5]));
}

#[test]
fn convex_polygons_keep_their_area() {
    let shapes = [
        outline(&[(0, 0), (4, 0), (0, 4)]),
        outline(&[(0, 0), (4, 0), (4, 4), (0, 4)]),
        outline(&[(0, 0), (4, 0), (6, 3), (2, 6), (-2, 3)]),
        outline(&[(2, 0), (4, 0), (6, 2), (4, 4), (2, 4), (0, 2)]),
        outline(&[(10, 0), (7, 7), (0, 10), (-7, 7), (-10, 0), (-7, -7), (0, -10), (7, -7)]),
    ];
    for shape in shapes {
        let triangles = triangulate(&shape).unwrap();
        assert_eq!(triangles.len(), 3 * (shape.len() - 2));
        assert!(triangles.iter().all(|i| *i < shape.len()));
        assert_eq!(doubled_area(&shape, &triangles), shoelace(&shape));
    }
    let square = outline(&[(0, 0), (4, 0), (4, 4), (0, 4)]);
    assert_eq!(shoelace(&square), 32_000_000);
}

#[test]
fn concave_outlines_are_clipped_ear_by_ear() {
    let ell = outline(&[(0, 0), (6, 0), (6, 2), (2, 2), (2, 6), (0, 6)]);
    let triangles = triangulate(&ell).unwrap();
    assert_eq!(triangles, vec![1, 0, 2, 2, 0, 3, 3, 0, 4, 0, 4, 5]);
    assert_eq!(doubled_area(&ell, &triangles), shoelace(&ell));
    let arrow = outline(&[(0, 0), (4, 2), (0, 4), (1, 2)]);
    let triangles = triangulate(&arrow).unwrap();
    assert_eq!(triangles, vec![2, 1, 3, 0, 1, 3]);
    assert_eq!(doubled_area(&arrow, &triangles), 12_000_000);
}

#[test]
fn a_clockwise_outline_is_triangulated_like_its_mirror_image() {
    let clockwise = outline(&[(0, 0), (0, 4), (4, 4), (4, 0)]);
    assert_eq!(triangulate(&clockwise), Some(vec![1, 0, 2, 0, 2, 3]));
    let unit = outline(&[(0, 0), (0, 1), (1, 1), (1, 0)]);
    let triangles = triangulate(&unit).unwrap();
    assert_eq!(triangles.len(), 6);
    assert_eq!(doubled_area(&unit, &triangles), 2_000_000);
    assert_eq!(shoelace(&unit), -2_000_000);
    let ell = outline(&[(0, 6), (2, 6), (2, 2), (6, 2), (6, 0), (0, 0)]);
    let triangles = triangulate(&ell).unwrap();
    assert_eq!(triangles, vec![1, 0, 2, 3, 2, 4, 4, 2, 5, 0, 2, 5]);
    assert_eq!(doubled_area(&ell, &triangles), 40_000_000);
}

#[test]
fn convex_polygons_are_triangulated_whichever_way_they_run() {
    let shapes = [
        vec![(0, 0), (4, 0), (0, 4)],
        vec![(0, 0), (4, 0), (4, 4), (0, 4)],
        vec![(0, 0), (4, 0), (6, 3), (2, 6), (-2, 3)],
        vec![(2, 0), (4, 0), (6, 2), (4, 4), (2, 4), (0, 2)],
        vec![(10, 0), (7, 7), (0, 10), (-7, 7), (-10, 0), (-7, -7), (0, -10), (7, -7)],
    ];
    for corners in shapes {
        let forward = outline(&corners);
        let mut turned = corners.clone();
        turned.reverse();
        let backward = outline(&turned);
        for shape in [forward, backward] {
            let triangles = triangulate(&shape).unwrap();
            assert_eq!(triangles.len(), 3 * (shape.len() - 2));
            assert_eq!(doubled_area(&shape, &triangles), shoelace(&shape).abs());
            assert_eq!(signed_area(&shape, &triangles), shoelace(&shape));
        }
    }
}

#[test]
fn an_outline_that_crosses_itself_can_get_stuck() {
    let crossing = outline(&[(4, 1), (3, 1), (2, 3), (4, 4), (1, 1)]);
    assert_eq!(triangulate(&crossing), None);
    let tangled = outline(&[(0, 3), (1, 3), (4, 3), (3, 4), (4, 0)]);
    assert_eq!(triangulate(&tangled), None);
}

#[test]
fn an_outline_without_area_gets_triangles_without_area() {
    let flat = outline(&[(0, 0), (1, 0), (2, 0), (3, 0)]);
    let triangles = triangulate(&flat).unwrap();
    assert_eq!(triangles, vec![1, 0, 2, 0, 2, 3]);
    assert_eq!(doubled_area(&flat, &triangles), 0);
}

#[test]
fn fewer_than_three_vertices_cannot_be_triangulated() {
    assert_eq!(triangulate(&outline(&[])), None);
    assert_eq!(triangulate(&outline(&[(0, 0)])), None);
    assert_eq!(triangulate(&outline(&[(0, 0), (1, 1)])), None);
}

#[test]
fn texture_coordinates_span_the_bounding_box() {
    let ell = outline(&[(0, 0), (6, 0), (6, 2), (2, 2), (2, 6), (0, 6)]);
    let uv: Vec<(i64, i64)> = generate_uv(&ell).iter().map(|c| (c.0.raw(), c.1.raw())).collect();
    assert_eq!(uv, vec![(0, 0), (1000, 0), (1000, 333), (333, 333), (333, 1000), (0, 1000)]);
    let flat = outline(&[(1, 5), (4, 5), (2, 5)]);
    let uv: Vec<(i64, i64)> = generate_uv(&flat).iter().map(|c| (c.0.raw(), c.1.raw())).collect();
    assert_eq!(uv, vec![(0, 0), (1000, 0), (333, 0)]);
    assert!(generate_uv(&outline(&[])).is_empty());
}

#[test]
fn a_mesh_is_generated_from_the_rest_outline() {
    let square = outline(&[(0, 0), (4, 0), (4, 4), (0, 4)]);
    let mesh = SoftMesh::generate(&square).unwrap();
    assert_eq!(mesh.indices, vec![1, 0, 2, 0, 2, 3]);
    let uv: Vec<(i64, i64)> = mesh.tex_coords.iter().map(|c| (c.0.raw(), c.1.raw())).collect();
    assert_eq!(uv, vec![(0, 0), (1000, 0), (1000, 1000), (0, 1000)]);
    assert!(SoftMesh::generate(&outline(&[(4, 1), (3, 1), (2, 3), (4, 4), (1, 1)])).is_none());
    let turned = SoftMesh::generate(&outline(&[(0, 0), (0, 4), (4, 4), (4, 0)])).unwrap();
    assert_eq!(turned.indices, vec![1, 0, 2, 0, 2, 3]);
}

#[test]
fn a_failed_retriangulation_keeps_the_previous_triangles() {
    let square = outline(&[(0, 0), (4, 0), (4, 4), (0, 4)]);
    let mut mesh = SoftMesh::generate(&square).unwrap();
    let coordinates = mesh.tex_coords.clone();
    let dented = outline(&[(0, 0), (4, 2), (0, 4), (1, 2)]);
    mesh.update_triangles(&dented);
    assert_eq!(mesh.indices, vec![2, 1, 3, 0, 1, 3]);
    assert_eq!(mesh.tex_coords, coordinates);
    let crossing = outline(&[(4, 1), (3, 1), (2, 3), (4, 4), (1, 1)]);
    mesh.update_triangles(&crossing);
    assert_eq!(mesh.indices, vec![2, 1, 3, 0, 1, 3]);
    assert_eq!(mesh.tex_coords, coordinates);
}

fn signed_area(points: &Vec<Vec2>, triangles: &Vec<usize>) -> i128 {
    let count = triangles.len() / 3;
    let mut sum = 0;
    for (k, t) in triangles.chunks(3).enumerate() {
        sum += if k + 1 < count {
            orient_exact(points[t[1]], points[t[0]], points[t[2]])
        } else {
            orient_exact(points[t[0]], points[t[1]], points[t[2]])
        };
    }
    sum
}

#[test]
fn successful_clipping_keeps_the_signed_area() {
    let shapes = [
        outline(&[(0, 0), (4, 0), (4, 4), (0, 4)]),
        outline(&[(0, 0), (6, 0), (6, 2), (2, 2), (2, 6), (0, 6)]),
        outline(&[(0, 0), (4, 2), (0, 4), (1, 2)]),
        outline(&[(1, 2), (0, 0), (4, 2), (0, 4)]),
        outline(&[(0, 0), (2, 0), (4, 0), (4, 4)]),
        outline(&[(0, 0), (0, 4), (4, 0)]),
        outline(&[(0, 0), (0, 4), (4, 4), (4, 0)]),
        outline(&[(1, 2), (0, 4), (4, 2), (0, 0)]),
        outline(&[(0, 0), (4, 4), (4, 0), (0, 4)]),
    ];
    for shape in shapes {
        let triangles = triangulate(&shape).unwrap();
        assert_eq!(signed_area(&shape, &triangles), shoelace(&shape));
    }
    let bowtie = outline(&[(0, 0), (4, 4), (4, 0), (0, 4)]);
    assert_eq!(triangulate(&bowtie), Some(vec![3, 2, 0, 0, 1, 2]));
    assert_eq!(shoelace(&bowtie), 0);
}

#[test]
fn convex_outlines_with_vertices_in_line_keep_their_area() {
    let shapes = [
        vec![(0, 0), (2, 0), (4, 0), (4, 4), (0, 4)],
        vec![(0, 0), (2, 0), (4, 0), (4, 2), (4, 4), (2, 4), (0, 4), (0, 2)],
        vec![(0, 0), (3, 0), (6, 0), (3, 3)],
        vec![(0, 0), (4, 0), (4, 4), (2, 2)],
    ];
    for corners in shapes {
        let forward = outline(&corners);
        let mut turned = corners.clone();
        turned.reverse();
        let backward = outline(&turned);
        for shape in [forward, backward] {
            let triangles = triangulate(&shape).unwrap();
            assert_eq!(triangles.len(), 3 * (shape.len() - 2));
            assert_eq!(doubled_area(&shape, &triangles), shoelace(&shape).abs());
        }
    }
}

#[test]
fn the_shoelace_area_tells_which_way_an_outline_runs() {
    let square = outline(&[(0, 0), (4, 0), (4, 4), (0, 4)]);
    assert_eq!(shoelace_of(&square), 32_000_000);
    let turned = outline(&[(0, 0), (0, 4), (4, 4), (4, 0)]);
    assert_eq!(shoelace_of(&turned), -32_000_000);
    assert_eq!(shoelace_of(&outline(&[(0, 0), (4, 4), (4, 0), (0, 4)])), 0);
    assert_eq!(shoelace_of(&outline(&[])), 0);
    assert_eq!(shoelace_of(&outline(&[(3, 5)])), 0);
    let image = mirror_of(&turned);
    let corners: Vec<(i64, i64)> = image.iter().map(|p| (p.x.raw(), p.y.raw())).collect();
    assert_eq!(corners, vec![(0, 0), (0, -4000), (4000, -4000), (4000, 0)]);
    assert_eq!(shoelace_of(&image), 32_000_000);
    let far = 1_000_000;
    let wide = outline(&[(-far, -far), (far, -far), (far, far), (-far, far)]);
    assert_eq!(shoelace_of(&wide), 8_000_000_000_000_000_000);
}
