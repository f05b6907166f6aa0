//! Building the closed edge cycle of one polygon from a coordinate template.
use vstd::prelude::*;
use crate::geometry::{Edge, Point};
use vstd::arithmetic::div_mod::{lemma_mod_self_0, lemma_small_mod};

verus! {

/// Why a polygon could not be built.
#[derive(Clone, Copy, Debug, PartialEq, Eq, Structural)]
pub enum PolygonError {
    /// `num_points` differs from the length of `xs` or of `ys`.
    LengthMismatch,
    /// A translated coordinate does not fit in `i16`, or a vertex index in `usize`.
    OutOfRange,
}

/// Whether every translated vertex fits in `i16` and every vertex index in `usize`.
pub open spec fn template_fits(xs: Seq<i16>, ys: Seq<i16>, dx: int, dy: int, start: int) -> bool {
    &&& forall|i: int|
        0 <= i < xs.len() ==> i16::MIN <= #[trigger] xs[i] + dx <= i16::MAX && i16::MIN <= ys[i]
            + dy <= i16::MAX
    &&& (xs.len() == 0 || start + xs.len() - 1 <= usize::MAX)
}

/// Vertex `i` of the template translated by `(dx, dy)`.
pub open spec fn vertex_spec(xs: Seq<i16>, ys: Seq<i16>, dx: int, dy: int, i: int) -> Point {
    Point { x: (xs[i] + dx) as i16, y: (ys[i] + dy) as i16 }
}

/// The edges of the polygon: edge `i` joins vertex `i` to vertex `(i + 1) mod n` and
/// carries the global index `start + i` of its first vertex.
pub open spec fn polygon_spec(xs: Seq<i16>, ys: Seq<i16>, dx: int, dy: int, start: int) -> Seq<Edge> {
    Seq::new(
        xs.len(),
        |i: int|
            Edge {
                a: vertex_spec(xs, ys, dx, dy, i),
                b: vertex_spec(xs, ys, dx, dy, (i + 1) % (xs.len() as int)),
                polygon_id: 0,
                vertex_index: (start + i) as usize,
            },
    )
}

/// Builds the closed edge cycle of a polygon whose vertex `i` is
/// `(xs[i] + x_offset, ys[i] + y_offset)`, numbering its vertices from `start_index`.
/// The polygon's position among others is assigned when the tree is built.
pub fn build_polygon(
    num_points: usize,
    xs: &Vec<i16>,
    ys: &Vec<i16>,
    x_offset: i32,
    y_offset: i32,
    start_index: usize,
) -> (r: Result<Vec<Edge>, PolygonError>)
    ensures
        r == Err::<Vec<Edge>, PolygonError>(PolygonError::LengthMismatch) <==> (num_points
            != xs.len() || num_points != ys.len()),
        r == Err::<Vec<Edge>, PolygonError>(PolygonError::OutOfRange) <==> (num_points == xs.len()
            && num_points == ys.len() && !template_fits(
            xs@,
            ys@,
            x_offset as int,
            y_offset as int,
            start_index as int,
        )),
        r matches Ok(edges) ==> edges@ == polygon_spec(
            xs@,
            ys@,
            x_offset as int,
            y_offset as int,
            start_index as int,
        ),
{
    if num_points != xs.len() || num_points != ys.len() {
        return Err(PolygonError::LengthMismatch);
    }
    if num_points > 0 && start_index > usize::MAX - (num_points - 1) {
        return Err(PolygonError::OutOfRange);
    }
    let mut vertices: Vec<Point> = Vec::new();
    let mut i: usize = 0;
    while i < num_points
        invariant
            num_points == xs.len() == ys.len(),
            i <= num_points,
            vertices@.len() == i,
            forall|k: int|
                0 <= k < i ==> i16::MIN <= #[trigger] xs@[k] + x_offset <= i16::MAX && i16::MIN
                    <= ys@[k] + y_offset <= i16::MAX,
            forall|k: int|
                0 <= k < i ==> #[trigger] vertices@[k] == vertex_spec(
                    xs@,
                    ys@,
                    x_offset as int,
                    y_offset as int,
                    k,
                ),
        decreases num_points - i,
    {
        let x: i64 = xs[i] as i64 + x_offset as i64;
        let y: i64 = ys[i] as i64 + y_offset as i64;
        if x < i16::MIN as i64 || x > i16::MAX as i64 || y < i16::MIN as i64 || y > i16::MAX as i64 {
            return Err(PolygonError::OutOfRange);
        }
        vertices.push(Point { x: x as i16, y: y as i16 });
        i = i + 1;
    }
    let mut edges: Vec<Edge> = Vec::new();
    let mut j: usize = 0;
    while j < num_points
        invariant
            num_points == xs.len() == ys.len() == vertices@.len(),
            j <= num_points,
            num_points == 0 || start_index + num_points - 1 <= usize::MAX,
            edges@.len() == j,
            forall|k: int|
                0 <= k < num_points ==> #[trigger] vertices@[k] == vertex_spec(
                    xs@,
                    ys@,
                    x_offset as int,
                    y_offset as int,
                    k,
                ),
            forall|k: int|
                0 <= k < j ==> #[trigger] edges@[k] == polygon_spec(
                    xs@,
                    ys@,
                    x_offset as int,
                    y_offset as int,
                    start_index as int,
                )[k],
        decreases num_points - j,
    {
        let next: usize = if j + 1 == num_points {
            0
        } else {
            j + 1
        };
        proof {
            if j + 1 == num_points {
                lemma_mod_self_0(num_points as int);
            } else {
                lemma_small_mod((j + 1) as nat, num_points as nat);
            }
        }
        edges.push(
            Edge { a: vertices[j], b: vertices[next], polygon_id: 0, vertex_index: start_index + j },
        );
        j = j + 1;
    }
    assert(edges@ =~= polygon_spec(xs@, ys@, x_offset as int, y_offset as int, start_index as int));
    Ok(edges)
}

/// The edges of a built polygon form one closed cycle: each edge ends where the next
/// one (cyclically) begins.
pub proof fn lemma_polygon_closed(xs: Seq<i16>, ys: Seq<i16>, dx: int, dy: int, start: int)
    ensures
        forall|i: int|
            0 <= i < xs.len() ==> (#[trigger] polygon_spec(xs, ys, dx, dy, start)[i]).b
                == polygon_spec(xs, ys, dx, dy, start)[(i + 1) % (xs.len() as int)].a,
{
    let n = xs.len() as int;
    assert forall|i: int| 0 <= i < n implies (#[trigger] polygon_spec(xs, ys, dx, dy, start)[i]).b
        == polygon_spec(xs, ys, dx, dy, start)[(i + 1) % n].a by {
        let j = (i + 1) % n;
        assert(0 <= j < n);
    }
}

} // verus!
