//! Facts that hold of every query result, proved from the result predicates.
use vstd::prelude::*;
use crate::geometry::{
    BBox, Edge, Point, SquaredDistance, box_dist2, dist2, dot_spec, frac_le, gap, in_box,
    lemma_box_dist2_segment, seg_dist2, sq,
};
use crate::tree::{
    VertexResult, crossing_count, inside_any, is_nearest_edge_distance, is_nearest_vertex,
    vertex_of,
};

verus! {

/// The bounding box of the two endpoints of `e`.
pub open spec fn edge_bbox(e: Edge) -> BBox {
    BBox {
        min_x: if e.a.x < e.b.x { e.a.x } else { e.b.x },
        min_y: if e.a.y < e.b.y { e.a.y } else { e.b.y },
        max_x: if e.a.x > e.b.x { e.a.x } else { e.b.x },
        max_y: if e.a.y > e.b.y { e.a.y } else { e.b.y },
    }
}

proof fn lemma_sq_pos(v: int)
    requires
        v != 0,
    ensures
        sq(v) > 0,
{
    assert(v * v > 0) by (nonlinear_arith)
        requires
            v != 0,
    ;
}

proof fn lemma_sq_nonneg(v: int)
    ensures
        sq(v) >= 0,
{
    assert(v * v >= 0) by (nonlinear_arith);
}

/// A point outside the box of a segment is at a positive distance from it.
proof fn lemma_outside_segment_positive(p: Point, e: Edge)
    requires
        !in_box(p, edge_bbox(e)),
    ensures
        seg_dist2(p, e.a, e.b).0 > 0,
{
    let bb = edge_bbox(e);
    let gx = gap(p.x as int, bb.min_x as int, bb.max_x as int);
    let gy = gap(p.y as int, bb.min_y as int, bb.max_y as int);
    lemma_sq_nonneg(gx);
    lemma_sq_nonneg(gy);
    if gx != 0 {
        lemma_sq_pos(gx);
    } else {
        lemma_sq_pos(gy);
    }
    assert(box_dist2(p, bb) > 0);
    lemma_box_dist2_segment(p, e.a, e.b, bb);
    let t = dot_spec(p, e.a, e.b);
    if 0 < t < dist2(e.a, e.b) {
        let f = seg_dist2(p, e.a, e.b);
        assert(box_dist2(p, bb) * f.1 <= f.0);
        assert(box_dist2(p, bb) * f.1 > 0) by (nonlinear_arith)
            requires
                box_dist2(p, bb) > 0,
                f.1 > 0,
        ;
    }
}

/// A point that lies outside the bounding box of every edge (so in particular any point
/// strictly outside the bounding box of every polygon) is at a positive distance from
/// the nearest edge.
pub proof fn lemma_outside_point_positive_distance(p: Point, edges: Seq<Edge>, d: SquaredDistance)
    requires
        is_nearest_edge_distance(p, edges, Some(d)),
        forall|k: int| 0 <= k < edges.len() ==> !in_box(p, edge_bbox(#[trigger] edges[k])),
    ensures
        d.num > 0,
{
    let k = choose|k: int| 0 <= k < edges.len() && d@ == seg_dist2(p, edges[k].a, edges[k].b);
    lemma_outside_segment_positive(p, edges[k]);
}

/// A query point placed on a vertex is at distance zero from its nearest vertex, and the
/// index reported is that vertex's, unless another vertex with a lower index lies at the
/// same place.
pub proof fn lemma_point_on_vertex(p: Point, edges: Seq<Edge>, v: VertexResult, k: int)
    requires
        is_nearest_vertex(p, edges, Some(v)),
        0 <= k < edges.len(),
        edges[k].a == p,
    ensures
        v.distance2 == 0,
        v.vertex_index <= edges[k].vertex_index,
        (forall|j: int|
            0 <= j < edges.len() && (#[trigger] edges[j]).a == p ==> edges[k].vertex_index
                <= edges[j].vertex_index) ==> v.vertex_index == edges[k].vertex_index,
{
    assert(dist2(p, edges[k].a) == 0);
    assert(crate::tree::vertex_le(p, v, edges[k]));
    let j = choose|j: int| 0 <= j < edges.len() && vertex_of(p, v, edges[j]);
    let q = edges[j].a;
    lemma_sq_nonneg(p.x - q.x);
    lemma_sq_nonneg(p.y - q.y);
    if p.x != q.x {
        lemma_sq_pos(p.x - q.x);
    }
    if p.y != q.y {
        lemma_sq_pos(p.y - q.y);
    }
    assert(edges[j].a == p);
}

/// Of two vertices equally near to `p` and nearer than all others, the one with the
/// lower index is reported.
pub proof fn lemma_tie_goes_to_lower_index(p: Point, edges: Seq<Edge>, v: VertexResult, j: int, k: int)
    requires
        is_nearest_vertex(p, edges, Some(v)),
        0 <= j < edges.len(),
        0 <= k < edges.len(),
        dist2(p, edges[j].a) == dist2(p, edges[k].a),
        forall|m: int|
            0 <= m < edges.len() ==> dist2(p, edges[j].a) <= dist2(p, (#[trigger] edges[m]).a),
    ensures
        v.distance2 == dist2(p, edges[j].a),
        v.vertex_index <= edges[j].vertex_index,
        v.vertex_index <= edges[k].vertex_index,
{
    assert(crate::tree::vertex_le(p, v, edges[j]));
    assert(crate::tree::vertex_le(p, v, edges[k]));
    let i = choose|i: int| 0 <= i < edges.len() && vertex_of(p, v, edges[i]);
    assert(dist2(p, edges[j].a) <= dist2(p, edges[i].a));
}

/// The nearest-vertex result is unique: any two results for the same point and edges
/// are the same, so repeating a query gives the same answer.
pub proof fn lemma_nearest_vertex_unique(
    p: Point,
    edges: Seq<Edge>,
    r1: Option<VertexResult>,
    r2: Option<VertexResult>,
)
    requires
        is_nearest_vertex(p, edges, r1),
        is_nearest_vertex(p, edges, r2),
    ensures
        r1 == r2,
{
    if let (Some(v1), Some(v2)) = (r1, r2) {
        let i = choose|i: int| 0 <= i < edges.len() && vertex_of(p, v1, edges[i]);
        let j = choose|j: int| 0 <= j < edges.len() && vertex_of(p, v2, edges[j]);
        assert(crate::tree::vertex_le(p, v1, edges[j]));
        assert(crate::tree::vertex_le(p, v2, edges[i]));
    }
}

/// The nearest-edge distance is unique as a number: any two results for the same point
/// and edges are equal fractions, so repeating a query gives the same distance.
pub proof fn lemma_nearest_edge_distance_unique(
    p: Point,
    edges: Seq<Edge>,
    r1: Option<SquaredDistance>,
    r2: Option<SquaredDistance>,
)
    requires
        is_nearest_edge_distance(p, edges, r1),
        is_nearest_edge_distance(p, edges, r2),
    ensures
        r1 is None <==> r2 is None,
        r1 matches Some(d1) ==> (r2 matches Some(d2) ==> d1.num * d2.den == d2.num * d1.den),
{
    if let (Some(d1), Some(d2)) = (r1, r2) {
        let i = choose|i: int| 0 <= i < edges.len() && d1@ == seg_dist2(p, edges[i].a, edges[i].b);
        let j = choose|j: int| 0 <= j < edges.len() && d2@ == seg_dist2(p, edges[j].a, edges[j].b);
        assert(frac_le(d1@, seg_dist2(p, edges[j].a, edges[j].b)));
        assert(frac_le(d2@, seg_dist2(p, edges[i].a, edges[i].b)));
    }
}

/// With no edges (no polygons, or only empty ones) no point is inside any polygon.
pub proof fn lemma_no_edges_nothing_inside(p: Point, edges: Seq<Edge>, num_polygons: int)
    requires
        edges.len() == 0,
    ensures
        !inside_any(p, edges, num_polygons),
{
    assert forall|id: int| 0 <= id < num_polygons implies crossing_count(p, edges, id, 0) % 2
        == 0 by {}
}

} // verus!
