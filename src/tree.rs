//! A bounding-volume hierarchy over the edges of many polygons, and the three batch
//! queries answered with it.
use vstd::prelude::*;
use crate::geometry::{
    BBox, Edge, Point, SquaredDistance, box_dist2, box_distance2, crosses_ray, dist2,
    edge_crosses_ray, edge_in_box, frac_bounded, frac_le, in_box,
    lemma_box_dist2_point, lemma_box_dist2_segment, point_dist2,
    seg_dist2, segment_dist2,
};

verus! {

/// The most edges a leaf holds; it changes the shape of the tree, never a result.
pub const LEAF_SIZE: usize = 4;

/// A node of the hierarchy: it covers the edges `lo..hi` of the tree's edge list,
/// all of which lie in `bbox`. An inner node's two children split that range.
#[derive(Clone, Copy, Debug)]
pub struct Node {
    pub bbox: BBox,
    pub lo: usize,
    pub hi: usize,
    pub leaf: bool,
    pub left: usize,
    pub right: usize,
}

/// The edges of all polygons, and a hierarchy of boxes over them.
/// Nodes are stored children first, so the root is the last node; the edges are ordered
/// so that each node covers a contiguous run of them.
pub struct SpatialTree {
    edges: Vec<Edge>,
    nodes: Vec<Node>,
    num_polygons: usize,
}

/// Edge `e` of polygon `j`, tagged with `j`.
pub open spec fn tag(e: Edge, j: int) -> Edge {
    Edge { a: e.a, b: e.b, polygon_id: j as usize, vertex_index: e.vertex_index }
}

/// The edges of all polygons in order, each tagged with its polygon's position.
pub open spec fn flatten_polygons(polys: Seq<Seq<Edge>>) -> Seq<Edge>
    decreases polys.len(),
{
    if polys.len() == 0 {
        Seq::empty()
    } else {
        flatten_polygons(polys.drop_last()) + polys.last().map_values(
            |e: Edge| tag(e, polys.len() - 1),
        )
    }
}

pub open spec fn node_ok(edges: Seq<Edge>, nodes: Seq<Node>, i: int) -> bool {
    let n = nodes[i];
    &&& n.lo < n.hi <= edges.len()
    &&& forall|k: int| n.lo <= k < n.hi ==> edge_in_box(#[trigger] edges[k], n.bbox)
    &&& !n.leaf ==> {
        &&& n.left < i
        &&& n.right < i
        &&& nodes[n.left as int].lo == n.lo
        &&& nodes[n.left as int].hi == nodes[n.right as int].lo
        &&& nodes[n.right as int].hi == n.hi
    }
}

pub open spec fn nodes_ok(edges: Seq<Edge>, nodes: Seq<Node>) -> bool {
    forall|i: int| 0 <= i < nodes.len() ==> node_ok(edges, nodes, i)
}

/// Number of the first `n` edges that belong to polygon `id` and cross the ray from `p`.
pub open spec fn crossing_count(p: Point, edges: Seq<Edge>, id: int, n: int) -> nat
    decreases n,
{
    if n <= 0 {
        0
    } else {
        crossing_count(p, edges, id, n - 1) + if edges[n - 1].polygon_id == id && crosses_ray(
            p,
            edges[n - 1],
        ) {
            1nat
        } else {
            0nat
        }
    }
}

/// Ray-casting parity: `p` is inside polygon `id` when the ray crosses its edges an
/// odd number of times.
pub open spec fn inside_polygon(p: Point, edges: Seq<Edge>, id: int) -> bool {
    crossing_count(p, edges, id, edges.len() as int) % 2 == 1
}

/// Whether `p` is inside at least one of the polygons.
pub open spec fn inside_any(p: Point, edges: Seq<Edge>, num_polygons: int) -> bool {
    exists|id: int| 0 <= id < num_polygons && inside_polygon(p, edges, id)
}

/// The nearest vertex to `p` and its squared distance.
#[derive(Clone, Copy, Debug, PartialEq, Eq, Structural)]
pub struct VertexResult {
    pub vertex_index: usize,
    pub distance2: u64,
}

/// `r` is no worse than the first vertex of `e`: nearer, or as near with an index that
/// is not higher.
pub open spec fn vertex_le(p: Point, r: VertexResult, e: Edge) -> bool {
    r.distance2 < dist2(p, e.a) || (r.distance2 == dist2(p, e.a) && r.vertex_index
        <= e.vertex_index)
}

/// `r` is the first vertex of `e`.
pub open spec fn vertex_of(p: Point, r: VertexResult, e: Edge) -> bool {
    r.vertex_index == e.vertex_index && r.distance2 == dist2(p, e.a)
}

pub open spec fn vertex_result_le(r: VertexResult, s: VertexResult) -> bool {
    r.distance2 < s.distance2 || (r.distance2 == s.distance2 && r.vertex_index <= s.vertex_index)
}

/// `r` is the distance from `p` to the nearest of `edges`, `None` when there are none.
pub open spec fn is_nearest_edge_distance(p: Point, edges: Seq<Edge>, r: Option<SquaredDistance>) -> bool {
    &&& r is None <==> edges.len() == 0
    &&& r matches Some(d) ==> {
        &&& exists|k: int| 0 <= k < edges.len() && d@ == seg_dist2(p, edges[k].a, edges[k].b)
        &&& forall|k: int|
            0 <= k < edges.len() ==> frac_le(d@, seg_dist2(p, (#[trigger] edges[k]).a, edges[k].b))
    }
}

/// `r` is the nearest vertex to `p` among the first endpoints of `edges`, the lowest
/// index among equally near ones; `None` when there are no edges.
pub open spec fn is_nearest_vertex(p: Point, edges: Seq<Edge>, r: Option<VertexResult>) -> bool {
    &&& r is None <==> edges.len() == 0
    &&& r matches Some(v) ==> {
        &&& exists|k: int| 0 <= k < edges.len() && vertex_of(p, v, edges[k])
        &&& forall|k: int| 0 <= k < edges.len() ==> vertex_le(p, v, #[trigger] edges[k])
    }
}

pub proof fn lemma_frac_le_trans(f: (int, int), g: (int, int), h: (int, int))
    requires
        f.1 > 0,
        g.1 > 0,
        h.1 > 0,
        frac_le(f, g),
        frac_le(g, h),
    ensures
        frac_le(f, h),
{
    let (a, b, c, d, e, k) = (f.0, f.1, g.0, g.1, h.0, h.1);
    assert(a * d * k <= c * b * k) by (nonlinear_arith)
        requires
            a * d <= c * b,
            k > 0,
    ;
    assert(c * k * b <= e * d * b) by (nonlinear_arith)
        requires
            c * k <= e * d,
            b > 0,
    ;
    assert(c * b * k == c * k * b) by (nonlinear_arith);
    assert(a * k * d == a * d * k) by (nonlinear_arith);
    assert(e * b * d == e * d * b) by (nonlinear_arith);
    assert(a * k <= e * b) by (nonlinear_arith)
        requires
            a * k * d <= e * b * d,
            d > 0,
    ;
}

impl SpatialTree {
    /// The edges of all polygons, each tagged with its polygon's position.
    pub closed spec fn edges(&self) -> Seq<Edge> {
        self.edges@
    }

    /// The number of polygons the tree was built from.
    pub closed spec fn num_polygons(&self) -> int {
        self.num_polygons as int
    }

    /// Every node covers a non-empty range whose edges lie in its box, inner nodes are
    /// split exactly by their children, and the last node covers all edges.
    pub closed spec fn wf(&self) -> bool {
        &&& nodes_ok(self.edges@, self.nodes@)
        &&& (self.edges@.len() == 0) == (self.nodes@.len() == 0)
        &&& self.nodes@.len() > 0 ==> self.nodes@.last().lo == 0 && self.nodes@.last().hi
            == self.edges@.len()
        &&& forall|k: int|
            0 <= k < self.edges@.len() ==> (#[trigger] self.edges@[k]).polygon_id
                < self.num_polygons
    }
}

/// The smallest box holding `bb` and `p`.
fn extend_box(bb: BBox, p: Point) -> (r: BBox)
    ensures
        in_box(p, r),
        forall|q: Point| in_box(q, bb) ==> in_box(q, r),
{
    BBox {
        min_x: if p.x < bb.min_x { p.x } else { bb.min_x },
        min_y: if p.y < bb.min_y { p.y } else { bb.min_y },
        max_x: if p.x > bb.max_x { p.x } else { bb.max_x },
        max_y: if p.y > bb.max_y { p.y } else { bb.max_y },
    }
}

/// The smallest box holding `b1` and `b2`.
fn union_box(b1: BBox, b2: BBox) -> (r: BBox)
    ensures
        forall|q: Point| in_box(q, b1) ==> in_box(q, r),
        forall|q: Point| in_box(q, b2) ==> in_box(q, r),
{
    BBox {
        min_x: if b2.min_x < b1.min_x { b2.min_x } else { b1.min_x },
        min_y: if b2.min_y < b1.min_y { b2.min_y } else { b1.min_y },
        max_x: if b2.max_x > b1.max_x { b2.max_x } else { b1.max_x },
        max_y: if b2.max_y > b1.max_y { b2.max_y } else { b1.max_y },
    }
}

/// Exchanges two edges.
fn swap_edges(edges: &mut Vec<Edge>, i: usize, j: usize)
    requires
        i < old(edges)@.len(),
        j < old(edges)@.len(),
    ensures
        final(edges)@ == old(edges)@.update(i as int, old(edges)@[j as int]).update(
            j as int,
            old(edges)@[i as int],
        ),
        final(edges)@.to_multiset() == old(edges)@.to_multiset(),
{
    let ghost s = edges@;
    let ei = edges[i];
    let ej = edges[j];
    edges.set(i, ej);
    let ghost s1 = edges@;
    edges.set(j, ei);
    proof {
        broadcast use vstd::seq_lib::to_multiset_update;
        broadcast use vstd::multiset::group_multiset_axioms;

        assert(s1.to_multiset() == s.to_multiset().insert(ej).remove(ei));
        assert(edges@.to_multiset() == s1.to_multiset().insert(ei).remove(s1[j as int]));
        broadcast use vstd::seq_lib::group_to_multiset_ensures;

        if i == j {
            assert(edges@ =~= s);
        } else {
            assert(s.contains(ei) && s.contains(ej)) by {
                assert(s[i as int] == ei && s[j as int] == ej);
            }
            assert(s.to_multiset().count(ei) > 0);
            assert(s.to_multiset().insert(ej).count(ej) > 0);
            assert(edges@.to_multiset() =~= s.to_multiset());
        }
    }
}

/// Reorders the edges `lo..hi` so that those whose midpoint lies below `split2 / 2`
/// along the chosen axis come first; returns where the second group starts.
fn partition(edges: &mut Vec<Edge>, lo: usize, hi: usize, along_x: bool, split2: i32) -> (mid: usize)
    requires
        lo <= hi <= old(edges)@.len(),
    ensures
        lo <= mid <= hi,
        final(edges)@.len() == old(edges)@.len(),
        final(edges)@.to_multiset() == old(edges)@.to_multiset(),
        forall|k: int| 0 <= k < old(edges)@.len() && !(lo <= k < hi) ==> final(edges)@[k] == old(edges)@[k],
{
    let ghost s = edges@;
    let mut i: usize = lo;
    let mut k: usize = lo;
    while k < hi
        invariant
            lo <= i <= k <= hi <= edges@.len(),
            edges@.len() == s.len(),
            edges@.to_multiset() == s.to_multiset(),
            forall|j: int| 0 <= j < s.len() && !(lo <= j < hi) ==> edges@[j] == s[j],
        decreases hi - k,
    {
        let e = edges[k];
        let m2: i32 = if along_x {
            e.a.x as i32 + e.b.x as i32
        } else {
            e.a.y as i32 + e.b.y as i32
        };
        if m2 < split2 {
            swap_edges(edges, i, k);
            i = i + 1;
        }
        k = k + 1;
    }
    i
}

/// The smallest box holding the edges `lo..hi`.
fn bounding_box(edges: &Vec<Edge>, lo: usize, hi: usize) -> (bb: BBox)
    requires
        lo < hi <= edges@.len(),
    ensures
        forall|j: int| lo <= j < hi ==> edge_in_box(#[trigger] edges@[j], bb),
{
    let mut bb = BBox { min_x: edges[lo].a.x, min_y: edges[lo].a.y, max_x: edges[lo].a.x, max_y: edges[lo].a.y };
    let mut k: usize = lo;
    while k < hi
        invariant
            lo <= k <= hi <= edges@.len(),
            in_box(edges@[lo as int].a, bb),
            forall|j: int| lo <= j < k ==> edge_in_box(#[trigger] edges@[j], bb),
        decreases hi - k,
    {
        let b0 = bb;
        bb = extend_box(bb, edges[k].a);
        bb = extend_box(bb, edges[k].b);
        assert forall|j: int| lo <= j <= k implies edge_in_box(#[trigger] edges@[j], bb) by {
            if j < k {
                assert(edge_in_box(edges@[j], b0));
            }
        }
        k = k + 1;
    }
    bb
}

/// Nodes that cover ranges outside `lo..hi` stay well formed when only edges inside it
/// change.
proof fn lemma_frame(e1: Seq<Edge>, e2: Seq<Edge>, nodes: Seq<Node>, lo: int, hi: int)
    requires
        nodes_ok(e1, nodes),
        e1.len() == e2.len(),
        forall|k: int| 0 <= k < e1.len() && !(lo <= k < hi) ==> e2[k] == e1[k],
        forall|i: int| 0 <= i < nodes.len() ==> nodes[i].hi <= lo || nodes[i].lo >= hi,
    ensures
        nodes_ok(e2, nodes),
{
    assert forall|i: int| 0 <= i < nodes.len() implies node_ok(e2, nodes, i) by {
        assert(node_ok(e1, nodes, i));
        let n = nodes[i];
        assert forall|k: int| n.lo <= k < n.hi implies edge_in_box(#[trigger] e2[k], n.bbox) by {
            assert(edge_in_box(e1[k], n.bbox));
        }
    }
}

/// Appends the nodes of a subtree over the edges `lo..hi`, its root last. An inner node
/// splits its edges at the midpoint of its box along `x` or `y`, the two in turn (in half
/// by count when every edge falls on one side); it reorders only edges `lo..hi`.
fn build_node(edges: &mut Vec<Edge>, lo: usize, hi: usize, along_x: bool, nodes: &mut Vec<Node>) -> (r: usize)
    requires
        lo < hi <= old(edges)@.len(),
        nodes_ok(old(edges)@, old(nodes)@),
        forall|i: int| 0 <= i < old(nodes)@.len() ==> old(nodes)@[i].hi <= lo || old(nodes)@[i].lo >= hi,
    ensures
        nodes_ok(final(edges)@, final(nodes)@),
        final(edges)@.len() == old(edges)@.len(),
        final(edges)@.to_multiset() == old(edges)@.to_multiset(),
        forall|k: int| 0 <= k < old(edges)@.len() && !(lo <= k < hi) ==> final(edges)@[k] == old(edges)@[k],
        r + 1 == final(nodes)@.len(),
        final(nodes)@.len() > old(nodes)@.len(),
        final(nodes)@[r as int].lo == lo,
        final(nodes)@[r as int].hi == hi,
        forall|i: int| 0 <= i < old(nodes)@.len() ==> final(nodes)@[i] == old(nodes)@[i],
        forall|i: int| old(nodes)@.len() <= i < final(nodes)@.len() ==> lo <= final(nodes)@[i].lo && final(nodes)@[i].hi <= hi,
    decreases hi - lo,
{
    let ghost start = nodes@;
    if hi - lo <= LEAF_SIZE {
        let bb = bounding_box(edges, lo, hi);
        nodes.push(Node { bbox: bb, lo, hi, leaf: true, left: 0, right: 0 });
        assert forall|i: int| 0 <= i < nodes@.len() implies node_ok(edges@, nodes@, i) by {
            if i < start.len() {
                assert(node_ok(edges@, start, i));
            }
        }
        nodes.len() - 1
    } else {
        let ghost e0 = edges@;
        let bb = bounding_box(edges, lo, hi);
        let split2: i32 = if along_x {
            bb.min_x as i32 + bb.max_x as i32
        } else {
            bb.min_y as i32 + bb.max_y as i32
        };
        let cut = partition(edges, lo, hi, along_x, split2);
        let mid: usize = if cut == lo || cut == hi {
            lo + (hi - lo) / 2
        } else {
            cut
        };
        proof {
            lemma_frame(e0, edges@, nodes@, lo as int, hi as int);
        }
        let left = build_node(edges, lo, mid, !along_x, nodes);
        let right = build_node(edges, mid, hi, !along_x, nodes);
        let bb = union_box(nodes[left].bbox, nodes[right].bbox);
        let ghost before = nodes@;
        assert(node_ok(edges@, before, left as int));
        assert(node_ok(edges@, before, right as int));
        assert forall|j: int| lo <= j < hi implies edge_in_box(#[trigger] edges@[j], bb) by {
            if j < mid {
                assert(edge_in_box(edges@[j], before[left as int].bbox));
            } else {
                assert(edge_in_box(edges@[j], before[right as int].bbox));
            }
        }
        nodes.push(Node { bbox: bb, lo, hi, leaf: false, left, right });
        assert forall|i: int| 0 <= i < nodes@.len() implies node_ok(edges@, nodes@, i) by {
            if i < before.len() {
                assert(node_ok(edges@, before, i));
            }
        }
        assert(forall|k: int| 0 <= k < e0.len() && !(lo <= k < hi) ==> edges@[k] == e0[k]);
        nodes.len() - 1
    }
}

/// Builds the tree over the edges of all `polygons`; the edges of `polygons[j]` are
/// tagged with polygon id `j`. No polygons (or no edges) give an empty tree.
/// The tree holds the same edges in an order of its own.
pub fn build_tree(polygons: &Vec<Vec<Edge>>) -> (t: SpatialTree)
    ensures
        t.wf(),
        t.edges().to_multiset() == flatten_polygons(polygons@.map_values(|p: Vec<Edge>| p@)).to_multiset(),
        t.num_polygons() == polygons@.len(),
{
    let ghost polys = polygons@.map_values(|p: Vec<Edge>| p@);
    let mut edges: Vec<Edge> = Vec::new();
    let mut j: usize = 0;
    while j < polygons.len()
        invariant
            j <= polygons@.len(),
            polys == polygons@.map_values(|p: Vec<Edge>| p@),
            edges@ == flatten_polygons(polys.take(j as int)),
            forall|k: int| 0 <= k < edges@.len() ==> (#[trigger] edges@[k]).polygon_id < j,
        decreases polygons@.len() - j,
    {
        let poly = &polygons[j];
        let ghost prefix = edges@;
        let mut i: usize = 0;
        while i < poly.len()
            invariant
                j < polygons@.len(),
                poly == &polygons@[j as int],
                i <= poly@.len(),
                edges@ == prefix + poly@.take(i as int).map_values(|e: Edge| tag(e, j as int)),
                forall|k: int| 0 <= k < edges@.len() ==> (#[trigger] edges@[k]).polygon_id <= j,
            decreases poly@.len() - i,
        {
            let e = poly[i];
            edges.push(Edge { a: e.a, b: e.b, polygon_id: j, vertex_index: e.vertex_index });
            proof {
                assert(poly@.take(i + 1).map_values(|e: Edge| tag(e, j as int)) =~= poly@.take(
                    i as int,
                ).map_values(|e: Edge| tag(e, j as int)).push(tag(e, j as int)));
            }
            i = i + 1;
        }
        proof {
            assert(polys.take(j + 1).drop_last() =~= polys.take(j as int));
            assert(poly@.take(i as int) =~= poly@);
            assert(polys.take(j + 1).last() == poly@);
        }
        j = j + 1;
    }
    assert(polys.take(j as int) =~= polys);
    let ghost flat = edges@;
    let mut nodes: Vec<Node> = Vec::new();
    if edges.len() > 0 {
        let n = edges.len();
        build_node(&mut edges, 0, n, true, &mut nodes);
    }
    proof {
        assert forall|k: int| 0 <= k < edges@.len() implies (#[trigger] edges@[k]).polygon_id
            < polygons@.len() by {
            broadcast use vstd::seq_lib::group_to_multiset_ensures;

            let x = edges@[k];
            assert(edges@.contains(x));
            assert(edges@.to_multiset().count(x) > 0);
            assert(flat.to_multiset().count(x) > 0);
            assert(flat.contains(x));
            let q = choose|q: int| 0 <= q < flat.len() && flat[q] == x;
            assert(flat[q].polygon_id < polygons@.len());
        }
    }
    SpatialTree { edges, nodes, num_polygons: polygons.len() }
}

impl SpatialTree {
    /// The best of `best` and the distances from `p` to the edges under node `i`.
    fn nearest_edge_in(&self, i: usize, p: Point, best: Option<SquaredDistance>) -> (r:
        SquaredDistance)
        requires
            self.wf(),
            i < self.nodes@.len(),
            best matches Some(b) ==> frac_bounded(b@),
        ensures
            frac_bounded(r@),
            (best == Some(r)) || exists|k: int|
                self.nodes@[i as int].lo <= k < self.nodes@[i as int].hi && r@ == seg_dist2(
                    p,
                    self.edges@[k].a,
                    self.edges@[k].b,
                ),
            forall|k: int|
                self.nodes@[i as int].lo <= k < self.nodes@[i as int].hi ==> frac_le(
                    r@,
                    seg_dist2(p, (#[trigger] self.edges@[k]).a, self.edges@[k].b),
                ),
            best matches Some(b) ==> frac_le(r@, b@),
        decreases i,
    {
        let node = self.nodes[i];
        assert(node_ok(self.edges@, self.nodes@, i as int));
        if let Some(b) = best {
            let d: u64 = box_distance2(p, &node.bbox);
            let lower = SquaredDistance { num: d as u128, den: 1 };
            proof {
                lemma_box_bound(p, node.bbox);
            }
            if !lower.less_than(&b) {
                assert forall|k: int| node.lo <= k < node.hi implies frac_le(
                    b@,
                    seg_dist2(p, (#[trigger] self.edges@[k]).a, self.edges@[k].b),
                ) by {
                    let e = self.edges@[k];
                    assert(edge_in_box(e, node.bbox));
                    lemma_box_dist2_segment(p, e.a, e.b, node.bbox);
                    crate::geometry::lemma_seg_dist2_bounded(p, e.a, e.b);
                    lemma_frac_le_trans(b@, lower@, seg_dist2(p, e.a, e.b));
                }
                return b;
            }
        }
        if node.leaf {
            let mut cur = best;
            let mut k: usize = node.lo;
            while k < node.hi
                invariant
                    self.wf(),
                    i < self.nodes@.len(),
                    node == self.nodes@[i as int],
                    node.lo <= k <= node.hi <= self.edges@.len(),
                    cur matches Some(c) ==> frac_bounded(c@),
                    best matches Some(b) ==> frac_bounded(b@),
                    k > node.lo ==> cur.is_some(),
                    cur matches Some(c) ==> ((best == Some(c)) || exists|j: int|
                        node.lo <= j < node.hi && c@ == seg_dist2(
                            p,
                            self.edges@[j].a,
                            self.edges@[j].b,
                        )),
                    cur matches Some(c) ==> forall|j: int|
                        node.lo <= j < k ==> frac_le(
                            c@,
                            seg_dist2(p, (#[trigger] self.edges@[j]).a, self.edges@[j].b),
                        ),
                    cur matches Some(c) ==> (best matches Some(b) ==> frac_le(c@, b@)),
                    best.is_some() ==> cur.is_some(),
                decreases node.hi - k,
            {
                let d = segment_dist2(p, &self.edges[k]);
                match cur {
                    None => {
                        cur = Some(d);
                    },
                    Some(c) => {
                        if d.less_than(&c) {
                            assert forall|j: int| node.lo <= j < k implies frac_le(
                                d@,
                                seg_dist2(p, (#[trigger] self.edges@[j]).a, self.edges@[j].b),
                            ) by {
                                let e = self.edges@[j];
                                crate::geometry::lemma_seg_dist2_bounded(p, e.a, e.b);
                                lemma_frac_le_trans(d@, c@, seg_dist2(p, e.a, e.b));
                            }
                            proof {
                                if let Some(b) = best {
                                    lemma_frac_le_trans(d@, c@, b@);
                                }
                            }
                            cur = Some(d);
                        }
                    },
                }
                k = k + 1;
            }
            match cur {
                Some(c) => c,
                None => {
                    assert(false);
                    SquaredDistance { num: 0, den: 1 }
                },
            }
        } else {
            assert(node_ok(self.edges@, self.nodes@, node.left as int));
            assert(node_ok(self.edges@, self.nodes@, node.right as int));
            let dl: u64 = box_distance2(p, &self.nodes[node.left].bbox);
            let dr: u64 = box_distance2(p, &self.nodes[node.right].bbox);
            let (first, second) = if dl <= dr {
                (node.left, node.right)
            } else {
                (node.right, node.left)
            };
            let r1 = self.nearest_edge_in(first, p, best);
            let r2 = self.nearest_edge_in(second, p, Some(r1));
            proof {
                assert forall|k: int| node.lo <= k < node.hi implies frac_le(
                    r2@,
                    seg_dist2(p, (#[trigger] self.edges@[k]).a, self.edges@[k].b),
                ) by {
                    let e = self.edges@[k];
                    if self.nodes@[first as int].lo <= k < self.nodes@[first as int].hi {
                        crate::geometry::lemma_seg_dist2_bounded(p, e.a, e.b);
                        lemma_frac_le_trans(r2@, r1@, seg_dist2(p, e.a, e.b));
                    }
                }
                if let Some(b) = best {
                    lemma_frac_le_trans(r2@, r1@, b@);
                }
            }
            r2
        }
    }

    /// The squared distance from `p` to the nearest edge, or `None` for an empty tree.
    pub fn nearest_edge_distance(&self, p: Point) -> (r: Option<SquaredDistance>)
        requires
            self.wf(),
        ensures
            is_nearest_edge_distance(p, self.edges(), r),
    {
        if self.nodes.len() == 0 {
            None
        } else {
            let root = self.nodes.len() - 1;
            let d = self.nearest_edge_in(root, p, None);
            assert(self.nodes@[root as int].lo == 0);
            assert(self.nodes@[root as int].hi == self.edges@.len());
            let ghost k = choose|k: int|
                self.nodes@[root as int].lo <= k < self.nodes@[root as int].hi && d@ == seg_dist2(
                    p,
                    self.edges@[k].a,
                    self.edges@[k].b,
                );
            assert(0 <= k < self.edges().len() && d@ == seg_dist2(
                p,
                self.edges()[k].a,
                self.edges()[k].b,
            ));
            Some(d)
        }
    }
}

impl SpatialTree {
    /// The best of `best` and the first vertices of the edges under node `i`.
    fn nearest_vertex_in(&self, i: usize, p: Point, best: Option<VertexResult>) -> (r:
        VertexResult)
        requires
            self.wf(),
            i < self.nodes@.len(),
        ensures
            (best == Some(r)) || exists|k: int|
                self.nodes@[i as int].lo <= k < self.nodes@[i as int].hi && vertex_of(
                    p,
                    r,
                    self.edges@[k],
                ),
            forall|k: int|
                self.nodes@[i as int].lo <= k < self.nodes@[i as int].hi ==> vertex_le(
                    p,
                    r,
                    #[trigger] self.edges@[k],
                ),
            best matches Some(b) ==> vertex_result_le(r, b),
        decreases i,
    {
        let node = self.nodes[i];
        assert(node_ok(self.edges@, self.nodes@, i as int));
        if let Some(b) = best {
            let d: u64 = box_distance2(p, &node.bbox);
            if d > b.distance2 {
                assert forall|k: int| node.lo <= k < node.hi implies vertex_le(
                    p,
                    b,
                    #[trigger] self.edges@[k],
                ) by {
                    let e = self.edges@[k];
                    assert(edge_in_box(e, node.bbox));
                    lemma_box_dist2_point(p, e.a, node.bbox);
                }
                return b;
            }
        }
        if node.leaf {
            let mut cur = best;
            let mut k: usize = node.lo;
            while k < node.hi
                invariant
                    self.wf(),
                    i < self.nodes@.len(),
                    node == self.nodes@[i as int],
                    node.lo <= k <= node.hi <= self.edges@.len(),
                    k > node.lo ==> cur.is_some(),
                    cur matches Some(c) ==> ((best == Some(c)) || exists|j: int|
                        node.lo <= j < node.hi && vertex_of(p, c, self.edges@[j])),
                    cur matches Some(c) ==> forall|j: int|
                        node.lo <= j < k ==> vertex_le(p, c, #[trigger] self.edges@[j]),
                    cur matches Some(c) ==> (best matches Some(b) ==> vertex_result_le(c, b)),
                    best.is_some() ==> cur.is_some(),
                decreases node.hi - k,
            {
                let e = self.edges[k];
                let d = VertexResult { vertex_index: e.vertex_index, distance2: point_dist2(p, e.a) };
                match cur {
                    None => {
                        cur = Some(d);
                    },
                    Some(c) => {
                        if d.distance2 < c.distance2 || (d.distance2 == c.distance2
                            && d.vertex_index < c.vertex_index) {
                            cur = Some(d);
                        }
                    },
                }
                k = k + 1;
            }
            match cur {
                Some(c) => c,
                None => {
                    assert(false);
                    VertexResult { vertex_index: 0, distance2: 0 }
                },
            }
        } else {
            assert(node_ok(self.edges@, self.nodes@, node.left as int));
            assert(node_ok(self.edges@, self.nodes@, node.right as int));
            let dl: u64 = box_distance2(p, &self.nodes[node.left].bbox);
            let dr: u64 = box_distance2(p, &self.nodes[node.right].bbox);
            let (first, second) = if dl <= dr {
                (node.left, node.right)
            } else {
                (node.right, node.left)
            };
            let r1 = self.nearest_vertex_in(first, p, best);
            let r2 = self.nearest_vertex_in(second, p, Some(r1));
            r2
        }
    }

    /// The nearest vertex to `p`, the one with the lowest global index among equally
    /// near ones, or `None` for an empty tree. A polygon's vertices are the first
    /// endpoints of its edges.
    pub fn nearest_vertex(&self, p: Point) -> (r: Option<VertexResult>)
        requires
            self.wf(),
        ensures
            is_nearest_vertex(p, self.edges(), r),
    {
        if self.nodes.len() == 0 {
            None
        } else {
            let root = self.nodes.len() - 1;
            let v = self.nearest_vertex_in(root, p, None);
            assert(self.nodes@[root as int].lo == 0);
            assert(self.nodes@[root as int].hi == self.edges@.len());
            let ghost k = choose|k: int|
                self.nodes@[root as int].lo <= k < self.nodes@[root as int].hi && vertex_of(
                    p,
                    v,
                    self.edges@[k],
                );
            assert(0 <= k < self.edges().len() && vertex_of(p, v, self.edges()[k]));
            Some(v)
        }
    }
}

/// An edge inside a box that lies wholly above, below, or left of `p` does not cross
/// the ray from `p` towards `+x`.
proof fn lemma_no_crossing(p: Point, e: Edge, bb: BBox)
    requires
        edge_in_box(e, bb),
        p.y < bb.min_y || p.y >= bb.max_y || p.x >= bb.max_x,
    ensures
        !crosses_ray(p, e),
{
    if p.x >= bb.max_x && p.y >= bb.min_y && p.y < bb.max_y {
        let (ux, uy, wx, wy) = (e.b.x - e.a.x, e.b.y - e.a.y, p.x - e.a.x, p.y - e.a.y);
        let c = crate::geometry::cross_spec(p, e.a, e.b);
        let (sb, sa) = (e.b.x - p.x, e.a.x - p.x);
        assert(c == wy * sb + (uy - wy) * sa) by (nonlinear_arith)
            requires
                c == ux * wy - uy * wx,
                ux == e.b.x - e.a.x,
                uy == e.b.y - e.a.y,
                wx == p.x - e.a.x,
                wy == p.y - e.a.y,
                sb == e.b.x - p.x,
                sa == e.a.x - p.x,
        ;
        if e.a.y <= p.y && p.y < e.b.y {
            assert(wy * sb <= 0) by (nonlinear_arith)
                requires
                    wy >= 0,
                    sb <= 0,
            ;
            assert((uy - wy) * sa <= 0) by (nonlinear_arith)
                requires
                    uy - wy > 0,
                    sa <= 0,
            ;
        }
        if e.b.y <= p.y && p.y < e.a.y {
            assert(wy * sb >= 0) by (nonlinear_arith)
                requires
                    wy < 0,
                    sb <= 0,
            ;
            assert((uy - wy) * sa >= 0) by (nonlinear_arith)
                requires
                    uy - wy <= 0,
                    sa <= 0,
            ;
        }
    }
}

/// Edges `lo..hi` that do not cross leave every polygon's count unchanged.
proof fn lemma_count_skip(p: Point, edges: Seq<Edge>, id: int, lo: int, hi: int)
    requires
        0 <= lo <= hi <= edges.len(),
        forall|k: int| lo <= k < hi ==> !crosses_ray(p, #[trigger] edges[k]),
    ensures
        crossing_count(p, edges, id, hi) == crossing_count(p, edges, id, lo),
    decreases hi - lo,
{
    if hi > lo {
        lemma_count_skip(p, edges, id, lo, hi - 1);
        assert(!crosses_ray(p, edges[hi - 1]));
    }
}

/// `parity` holds, for each polygon, the parity of the crossings among the first `n` edges.
pub open spec fn parity_of(p: Point, edges: Seq<Edge>, parity: Seq<bool>, n: int) -> bool {
    forall|id: int|
        0 <= id < parity.len() ==> #[trigger] parity[id] == (crossing_count(p, edges, id, n) % 2
            == 1)
}

impl SpatialTree {
    /// Adds the crossings of the edges under node `i` to the per-polygon parities.
    fn crossings_in(&self, i: usize, p: Point, parity: &mut Vec<bool>)
        requires
            self.wf(),
            i < self.nodes@.len(),
            old(parity)@.len() == self.num_polygons,
            parity_of(p, self.edges@, old(parity)@, self.nodes@[i as int].lo as int),
        ensures
            final(parity)@.len() == self.num_polygons,
            parity_of(p, self.edges@, final(parity)@, self.nodes@[i as int].hi as int),
        decreases i,
    {
        let node = self.nodes[i];
        assert(node_ok(self.edges@, self.nodes@, i as int));
        if p.y < node.bbox.min_y || p.y >= node.bbox.max_y || p.x >= node.bbox.max_x {
            proof {
                assert forall|k: int| node.lo <= k < node.hi implies !crosses_ray(
                    p,
                    #[trigger] self.edges@[k],
                ) by {
                    lemma_no_crossing(p, self.edges@[k], node.bbox);
                }
                assert forall|id: int| 0 <= id < parity@.len() implies #[trigger] parity@[id] == (
                crossing_count(p, self.edges@, id, node.hi as int) % 2 == 1) by {
                    lemma_count_skip(p, self.edges@, id, node.lo as int, node.hi as int);
                }
            }
            return;
        }
        if node.leaf {
            let mut k: usize = node.lo;
            while k < node.hi
                invariant
                    self.wf(),
                    node.lo <= k <= node.hi <= self.edges@.len(),
                    parity@.len() == self.num_polygons,
                    parity_of(p, self.edges@, parity@, k as int),
                decreases node.hi - k,
            {
                let e = self.edges[k];
                let ghost before = parity@;
                if edge_crosses_ray(p, &e) {
                    let id = e.polygon_id;
                    let flipped = !parity[id];
                    parity.set(id, flipped);
                }
                assert forall|id: int| 0 <= id < parity@.len() implies #[trigger] parity@[id] == (
                crossing_count(p, self.edges@, id, k + 1) % 2 == 1) by {
                    assert(before[id] == (crossing_count(p, self.edges@, id, k as int) % 2 == 1));
                }
                k = k + 1;
            }
        } else {
            assert(node_ok(self.edges@, self.nodes@, node.left as int));
            assert(node_ok(self.edges@, self.nodes@, node.right as int));
            self.crossings_in(node.left, p, parity);
            self.crossings_in(node.right, p, parity);
        }
    }

    /// Whether `p` lies inside at least one polygon, by ray-casting parity. For a point
    /// on a polygon's boundary the answer depends on which boundary it is.
    pub fn contains(&self, p: Point) -> (r: bool)
        requires
            self.wf(),
        ensures
            r == inside_any(p, self.edges(), self.num_polygons()),
    {
        let mut parity: Vec<bool> = Vec::new();
        let mut j: usize = 0;
        while j < self.num_polygons
            invariant
                j <= self.num_polygons,
                parity@.len() == j,
                forall|id: int| 0 <= id < j ==> !#[trigger] parity@[id],
            decreases self.num_polygons - j,
        {
            parity.push(false);
            j = j + 1;
        }
        if self.nodes.len() > 0 {
            let root = self.nodes.len() - 1;
            assert(self.nodes@[root as int].lo == 0);
            self.crossings_in(root, p, &mut parity);
        }
        assert(parity_of(p, self.edges@, parity@, self.edges@.len() as int));
        let mut found = false;
        let mut id: usize = 0;
        while id < parity.len()
            invariant
                id <= parity@.len() == self.num_polygons,
                parity_of(p, self.edges@, parity@, self.edges@.len() as int),
                found <==> exists|q: int| 0 <= q < id && inside_polygon(p, self.edges@, q),
            decreases parity@.len() - id,
        {
            if parity[id] {
                found = true;
            }
            proof {
                if parity@[id as int] {
                    assert(inside_polygon(p, self.edges@, id as int));
                }
            }
            id = id + 1;
        }
        found
    }
}

/// The box distance is small enough to compare as a fraction.
proof fn lemma_box_bound(p: Point, bb: BBox)
    ensures
        frac_bounded((box_dist2(p, bb), 1)),
{
    let gx = crate::geometry::gap(p.x as int, bb.min_x as int, bb.max_x as int);
    let gy = crate::geometry::gap(p.y as int, bb.min_y as int, bb.max_y as int);
    crate::geometry::lemma_sq_bound(gx);
    crate::geometry::lemma_sq_bound(gy);
}

/// For each point, the squared distance to the nearest edge (`None` for an empty tree).
pub fn query_nearest_edge_distance(tree: &SpatialTree, points: &Vec<Point>) -> (r: Vec<
    Option<SquaredDistance>,
>)
    requires
        tree.wf(),
    ensures
        r@.len() == points@.len(),
        forall|i: int|
            0 <= i < points@.len() ==> is_nearest_edge_distance(points@[i], tree.edges(), #[trigger] r@[i]),
{
    let mut out: Vec<Option<SquaredDistance>> = Vec::new();
    let mut i: usize = 0;
    while i < points.len()
        invariant
            tree.wf(),
            i <= points@.len(),
            out@.len() == i,
            forall|j: int|
                0 <= j < i ==> is_nearest_edge_distance(points@[j], tree.edges(), #[trigger] out@[j]),
        decreases points@.len() - i,
    {
        out.push(tree.nearest_edge_distance(points[i]));
        i = i + 1;
    }
    out
}

/// For each point, its nearest vertex (`None` for an empty tree).
pub fn query_nearest_vertex(tree: &SpatialTree, points: &Vec<Point>) -> (r: Vec<Option<VertexResult>>)
    requires
        tree.wf(),
    ensures
        r@.len() == points@.len(),
        forall|i: int|
            0 <= i < points@.len() ==> is_nearest_vertex(points@[i], tree.edges(), #[trigger] r@[i]),
{
    let mut out: Vec<Option<VertexResult>> = Vec::new();
    let mut i: usize = 0;
    while i < points.len()
        invariant
            tree.wf(),
            i <= points@.len(),
            out@.len() == i,
            forall|j: int|
                0 <= j < i ==> is_nearest_vertex(points@[j], tree.edges(), #[trigger] out@[j]),
        decreases points@.len() - i,
    {
        out.push(tree.nearest_vertex(points[i]));
        i = i + 1;
    }
    out
}

/// For each point, whether it lies inside at least one polygon.
pub fn query_contains(tree: &SpatialTree, points: &Vec<Point>) -> (r: Vec<bool>)
    requires
        tree.wf(),
    ensures
        r@.len() == points@.len(),
        forall|i: int|
            0 <= i < points@.len() ==> #[trigger] r@[i] == inside_any(
                points@[i],
                tree.edges(),
                tree.num_polygons(),
            ),
{
    let mut out: Vec<bool> = Vec::new();
    let mut i: usize = 0;
    while i < points.len()
        invariant
            tree.wf(),
            i <= points@.len(),
            out@.len() == i,
            forall|j: int|
                0 <= j < i ==> #[trigger] out@[j] == inside_any(
                    points@[j],
                    tree.edges(),
                    tree.num_polygons(),
                ),
        decreases points@.len() - i,
    {
        out.push(tree.contains(points[i]));
        i = i + 1;
    }
    out
}

} // verus!
