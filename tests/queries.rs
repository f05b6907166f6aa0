use polygon_index::geometry::{segment_dist2, Edge, Point, SquaredDistance};
use polygon_index::polygon::{build_polygon, PolygonError};
use polygon_index::tree::{
    build_tree, query_contains, query_nearest_edge_distance, query_nearest_vertex, SpatialTree,
    VertexResult,
};
use rand::rngs::StdRng;
use rand::{Rng, SeedableRng};

fn pt(x: i16, y: i16) -> Point {
    Point { x, y }
}

/// The unit square scaled by two: corners (0,0), (2,0), (2,2), (0,2).
fn square(x_offset: i32, start_index: usize) -> Vec<Edge> {
    build_polygon(4, &vec![0, 2, 2, 0], &vec![0, 0, 2, 2], x_offset, 0, start_index).unwrap()
}

fn five_squares() -> SpatialTree {
    let polys: Vec<Vec<Edge>> = (0..5).map(|i| square(10 * i as i32, 4 * i)).collect();
    build_tree(&polys)
}

fn as_f64(d: SquaredDistance) -> f64 {
    d.num as f64 / d.den as f64
}

#[test]
fn polygon_edges_form_closed_cycle() {
    let xs = vec![3, 7, 9, 4, -2];
    let ys = vec![1, 0, 5, 8, 4];
    let edges = build_polygon(5, &xs, &ys, 100, -50, 17).unwrap();
    assert_eq!(edges.len(), 5);
    for i in 0..5 {
        assert_eq!(edges[i].b, edges[(i + 1) % 5].a);
        assert_eq!(edges[i].a, pt(xs[i] + 100, ys[i] - 50));
        assert_eq!(edges[i].vertex_index, 17 + i);
    }
}

#[test]
fn polygon_length_mismatch() {
    assert_eq!(
        build_polygon(3, &vec![0, 1, 2], &vec![0, 1], 0, 0, 0),
        Err(PolygonError::LengthMismatch)
    );
    assert_eq!(
        build_polygon(2, &vec![0, 1, 2], &vec![0, 1, 2], 0, 0, 0),
        Err(PolygonError::LengthMismatch)
    );
}

#[test]
fn polygon_out_of_range() {
    assert_eq!(
        build_polygon(2, &vec![0, 32000], &vec![0, 0], 1000, 0, 0),
        Err(PolygonError::OutOfRange)
    );
    assert_eq!(
        build_polygon(2, &vec![0, 1], &vec![0, 0], 0, 0, usize::MAX),
        Err(PolygonError::OutOfRange)
    );
    assert!(build_polygon(1, &vec![0], &vec![0], 0, 0, usize::MAX).is_ok());
}

#[test]
fn empty_polygon_has_no_edges() {
    assert_eq!(build_polygon(0, &vec![], &vec![], 5, 5, 0), Ok(vec![]));
}

#[test]
fn segment_distance_exact_values() {
    let e = Edge { a: pt(0, 0), b: pt(2, 0), polygon_id: 0, vertex_index: 0 };
    // Projection inside the segment: |cross|^2 / |ab|^2 = 4 / 4.
    assert_eq!(segment_dist2(pt(1, 1), &e), SquaredDistance { num: 4, den: 4 });
    // Beyond either end: the endpoint.
    assert_eq!(segment_dist2(pt(-3, 4), &e), SquaredDistance { num: 25, den: 1 });
    assert_eq!(segment_dist2(pt(5, 4), &e), SquaredDistance { num: 25, den: 1 });
    // A zero-length edge is its single point.
    let z = Edge { a: pt(1, 1), b: pt(1, 1), polygon_id: 0, vertex_index: 0 };
    assert_eq!(segment_dist2(pt(4, 5), &z), SquaredDistance { num: 25, den: 1 });
}

#[test]
fn single_square_center() {
    let tree = build_tree(&vec![square(0, 0)]);
    let points = vec![pt(1, 1)];
    assert_eq!(query_contains(&tree, &points), vec![true]);
    let d = query_nearest_edge_distance(&tree, &points)[0].unwrap();
    // 0.5 in unit coordinates, i.e. 1 at scale two.
    assert_eq!(as_f64(d), 1.0);
    let v = query_nearest_vertex(&tree, &points)[0].unwrap();
    // sqrt(2) / 2 in unit coordinates; all four corners tie and index 0 wins.
    assert_eq!(v, VertexResult { vertex_index: 0, distance2: 2 });
}

#[test]
fn point_between_squares() {
    let tree = five_squares();
    let points = vec![pt(5, 1)];
    assert_eq!(query_contains(&tree, &points), vec![false]);
    let d = query_nearest_edge_distance(&tree, &points)[0].unwrap();
    assert!(d.num > 0);
    assert_eq!(as_f64(d), 9.0);
}

#[test]
fn points_in_each_square() {
    let tree = five_squares();
    let points: Vec<Point> = (0..5).map(|i| pt(10 * i + 1, 1)).collect();
    assert_eq!(query_contains(&tree, &points), vec![true; 5]);
    let v = query_nearest_vertex(&tree, &vec![pt(42, 3)])[0].unwrap();
    // Nearest corner is (42, 2) of the fifth square: its third vertex, index 16 + 2.
    assert_eq!(v, VertexResult { vertex_index: 18, distance2: 1 });
}

#[test]
fn empty_tree_gives_sentinels() {
    let tree = build_tree(&vec![]);
    let points = vec![pt(0, 0), pt(3, -4)];
    assert_eq!(query_nearest_edge_distance(&tree, &points), vec![None, None]);
    assert_eq!(query_nearest_vertex(&tree, &points), vec![None, None]);
    assert_eq!(query_contains(&tree, &points), vec![false, false]);
    let tree = build_tree(&vec![vec![], vec![]]);
    assert_eq!(query_contains(&tree, &points), vec![false, false]);
    assert_eq!(query_nearest_vertex(&tree, &points), vec![None, None]);
}

#[test]
fn no_points_give_no_results() {
    let tree = five_squares();
    assert!(query_contains(&tree, &vec![]).is_empty());
    assert!(query_nearest_edge_distance(&tree, &vec![]).is_empty());
    assert!(query_nearest_vertex(&tree, &vec![]).is_empty());
}

#[test]
fn point_outside_all_boxes_has_positive_distance() {
    let tree = five_squares();
    let points = vec![pt(-3, 1), pt(50, 50), pt(20, -7), pt(3, 1)];
    for d in query_nearest_edge_distance(&tree, &points) {
        assert!(d.unwrap().num > 0);
    }
}

#[test]
fn point_on_vertex_reports_it() {
    let tree = five_squares();
    for i in 0..5i16 {
        for (k, (x, y)) in [(0, 0), (2, 0), (2, 2), (0, 2)].iter().enumerate() {
            let v = query_nearest_vertex(&tree, &vec![pt(10 * i + x, *y)])[0].unwrap();
            assert_eq!(v, VertexResult { vertex_index: 4 * i as usize + k, distance2: 0 });
        }
    }
}

#[test]
fn tie_goes_to_lower_index() {
    // Two polygons with a coincident vertex at (2, 0); the second is built first.
    let first = build_polygon(3, &vec![2, 5, 5], &vec![0, 0, 3], 0, 0, 10).unwrap();
    let second = build_polygon(3, &vec![0, 2, 0], &vec![0, 0, 3], 0, 0, 3).unwrap();
    for polys in [vec![first.clone(), second.clone()], vec![second, first]] {
        let tree = build_tree(&polys);
        let v = query_nearest_vertex(&tree, &vec![pt(2, -1)])[0].unwrap();
        assert_eq!(v, VertexResult { vertex_index: 4, distance2: 1 });
    }
}

#[test]
fn repeated_queries_agree() {
    let tree = five_squares();
    let points: Vec<Point> = (-5..50).map(|i| pt(i, (i * 7) % 5 - 1)).collect();
    assert_eq!(query_contains(&tree, &points), query_contains(&tree, &points));
    assert_eq!(query_nearest_vertex(&tree, &points), query_nearest_vertex(&tree, &points));
    assert_eq!(
        query_nearest_edge_distance(&tree, &points),
        query_nearest_edge_distance(&tree, &points)
    );
}

fn brute_contains(polys: &[Vec<Edge>], p: Point) -> bool {
    polys.iter().any(|poly| {
        let mut inside = false;
        for e in poly {
            let (ax, ay, bx, by) = (e.a.x as f64, e.a.y as f64, e.b.x as f64, e.b.y as f64);
            let (px, py) = (p.x as f64, p.y as f64);
            if (ay > py) != (by > py) && px < ax + (py - ay) * (bx - ax) / (by - ay) {
                inside = !inside;
            }
        }
        inside
    })
}

fn on_boundary(polys: &[Vec<Edge>], p: Point) -> bool {
    polys.iter().flatten().any(|e| segment_dist2(p, e).num == 0)
}

fn brute_nearest_edge(polys: &[Vec<Edge>], p: Point) -> f64 {
    polys.iter().flatten().map(|e| as_f64(segment_dist2(p, e))).fold(f64::INFINITY, f64::min)
}

#[test]
fn random_points_agree_with_scan() {
    let xs = vec![0, 300, 500, 450, 200, -100, 100];
    let ys = vec![0, -50, 200, 500, 250, 400, 150];
    let polys: Vec<Vec<Edge>> =
        (0..6).map(|i| build_polygon(7, &xs, &ys, 700 * i as i32, 0, 7 * i).unwrap()).collect();
    let tree = build_tree(&polys);
    let mut rng = StdRng::seed_from_u64(7);
    let points: Vec<Point> =
        (0..2000).map(|_| pt(rng.gen_range(-300, 4200), rng.gen_range(-200, 700))).collect();
    let inside = query_contains(&tree, &points);
    let dists = query_nearest_edge_distance(&tree, &points);
    let verts = query_nearest_vertex(&tree, &points);
    for (i, p) in points.iter().enumerate() {
        if !on_boundary(&polys, *p) {
            assert_eq!(inside[i], brute_contains(&polys, *p), "point {:?}", p);
        }
        assert_eq!(as_f64(dists[i].unwrap()), brute_nearest_edge(&polys, *p));
        let best = polys
            .iter()
            .flatten()
            .map(|e| {
                let (dx, dy) = (p.x as i64 - e.a.x as i64, p.y as i64 - e.a.y as i64);
                ((dx * dx + dy * dy) as u64, e.vertex_index)
            })
            .min()
            .unwrap();
        assert_eq!(verts[i], Some(VertexResult { vertex_index: best.1, distance2: best.0 }));
    }
}
