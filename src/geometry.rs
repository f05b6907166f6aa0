//! Points, edges, boxes and exact squared distances between them.
use vstd::prelude::*;

verus! {

/// A point with integer coordinates.
#[derive(Clone, Copy, Debug, PartialEq, Eq, Structural)]
pub struct Point {
    pub x: i16,
    pub y: i16,
}

/// A directed segment `a -> b` of a polygon; `vertex_index` is the global index of `a`.
#[derive(Clone, Copy, Debug, PartialEq, Eq, Structural)]
pub struct Edge {
    pub a: Point,
    pub b: Point,
    pub polygon_id: usize,
    pub vertex_index: usize,
}

/// An axis-aligned bounding box (inclusive bounds).
#[derive(Clone, Copy, Debug, PartialEq, Eq, Structural)]
pub struct BBox {
    pub min_x: i16,
    pub min_y: i16,
    pub max_x: i16,
    pub max_y: i16,
}

/// An exact squared distance `num / den`, with `den > 0`.
#[derive(Clone, Copy, Debug, PartialEq, Eq, Structural)]
pub struct SquaredDistance {
    pub num: u128,
    pub den: u128,
}

impl View for SquaredDistance {
    type V = (int, int);

    open spec fn view(&self) -> (int, int) {
        (self.num as int, self.den as int)
    }
}

pub open spec fn sq(v: int) -> int {
    v * v
}

/// Squared Euclidean distance between two points.
pub open spec fn dist2(p: Point, q: Point) -> int {
    sq(p.x - q.x) + sq(p.y - q.y)
}

/// `(p - a) . (b - a)`
pub open spec fn dot_spec(p: Point, a: Point, b: Point) -> int {
    (p.x - a.x) * (b.x - a.x) + (p.y - a.y) * (b.y - a.y)
}

/// `(b - a) x (p - a)`: positive when `p` lies to the left of `a -> b`.
pub open spec fn cross_spec(p: Point, a: Point, b: Point) -> int {
    (b.x - a.x) * (p.y - a.y) - (b.y - a.y) * (p.x - a.x)
}

/// Squared distance from `p` to the closed segment `[a, b]`, as a fraction.
/// The projection of `p` onto the segment's line is clamped to the segment;
/// a zero-length segment is its single point.
pub open spec fn seg_dist2(p: Point, a: Point, b: Point) -> (int, int) {
    if dot_spec(p, a, b) <= 0 {
        (dist2(p, a), 1)
    } else if dot_spec(p, a, b) >= dist2(a, b) {
        (dist2(p, b), 1)
    } else {
        (sq(cross_spec(p, a, b)), dist2(a, b))
    }
}

/// `f < g` for fractions with positive denominators.
pub open spec fn frac_lt(f: (int, int), g: (int, int)) -> bool {
    f.0 * g.1 < g.0 * f.1
}

/// `f <= g` for fractions with positive denominators.
pub open spec fn frac_le(f: (int, int), g: (int, int)) -> bool {
    f.0 * g.1 <= g.0 * f.1
}

/// The range that every squared distance of this module lies in.
pub open spec fn frac_bounded(f: (int, int)) -> bool {
    0 <= f.0 < 0x4_0000_0000_0000_0000 && 0 < f.1 < 0x4_0000_0000
}

pub open spec fn in_box(p: Point, bb: BBox) -> bool {
    bb.min_x <= p.x <= bb.max_x && bb.min_y <= p.y <= bb.max_y
}

pub open spec fn edge_in_box(e: Edge, bb: BBox) -> bool {
    in_box(e.a, bb) && in_box(e.b, bb)
}

pub open spec fn gap(v: int, lo: int, hi: int) -> int {
    if v < lo {
        lo - v
    } else if v > hi {
        v - hi
    } else {
        0
    }
}

/// Squared distance from `p` to the nearest point of the box.
pub open spec fn box_dist2(p: Point, bb: BBox) -> int {
    sq(gap(p.x as int, bb.min_x as int, bb.max_x as int)) + sq(
        gap(p.y as int, bb.min_y as int, bb.max_y as int),
    )
}

/// Whether edge `e` crosses the horizontal ray from `p` towards `+x`
/// (half-open in `y`, so a vertex on the ray is counted once).
pub open spec fn crosses_ray(p: Point, e: Edge) -> bool {
    ||| (e.a.y <= p.y && p.y < e.b.y && cross_spec(p, e.a, e.b) > 0)
    ||| (e.b.y <= p.y && p.y < e.a.y && cross_spec(p, e.a, e.b) < 0)
}

pub proof fn lemma_sq_bound(v: int)
    requires
        -65535 <= v <= 65535,
    ensures
        0 <= sq(v) <= 65535 * 65535,
{
    assert(0 <= v * v <= 65535 * 65535) by (nonlinear_arith)
        requires
            -65535 <= v <= 65535,
    ;
}

pub proof fn lemma_sq_mono(u: int, v: int)
    requires
        0 <= u <= v,
    ensures
        sq(u) <= sq(v),
{
    assert(u * u <= v * v) by (nonlinear_arith)
        requires
            0 <= u <= v,
    ;
}

proof fn lemma_abs_sq(v: int)
    ensures
        sq(v) == sq(-v),
        sq(v) >= 0,
{
    assert(v * v == (-v) * (-v)) by (nonlinear_arith);
    assert(v * v >= 0) by (nonlinear_arith);
}

pub proof fn lemma_dist2_bound(p: Point, q: Point)
    ensures
        0 <= dist2(p, q) < 0x2_0000_0000,
{
    lemma_sq_bound(p.x - q.x);
    lemma_sq_bound(p.y - q.y);
}

pub proof fn lemma_seg_dist2_bounded(p: Point, a: Point, b: Point)
    ensures
        frac_bounded(seg_dist2(p, a, b)),
{
    lemma_dist2_bound(p, a);
    lemma_dist2_bound(p, b);
    lemma_dist2_bound(a, b);
    let c = cross_spec(p, a, b);
    let (ux, uy, wx, wy) = (b.x - a.x, b.y - a.y, p.x - a.x, p.y - a.y);
    assert(-65535 * 65535 <= ux * wy <= 65535 * 65535) by (nonlinear_arith)
        requires
            -65535 <= ux <= 65535,
            -65535 <= wy <= 65535,
    ;
    assert(-65535 * 65535 <= uy * wx <= 65535 * 65535) by (nonlinear_arith)
        requires
            -65535 <= uy <= 65535,
            -65535 <= wx <= 65535,
    ;
    if c >= 0 {
        lemma_sq_mono(c, 8589672450int);
    } else {
        lemma_abs_sq(c);
        lemma_sq_mono(-c, 8589672450int);
    }
    assert(8589672450int * 8589672450int < 0x4_0000_0000_0000_0000) by (nonlinear_arith);
    if 0 < dot_spec(p, a, b) < dist2(a, b) {
        assert(dist2(a, b) > 0);
    }
}

/// A point of the box is no nearer to `p` than the box itself.
pub proof fn lemma_box_dist2_point(p: Point, q: Point, bb: BBox)
    requires
        in_box(q, bb),
    ensures
        box_dist2(p, bb) <= dist2(p, q),
{
    let gx = gap(p.x as int, bb.min_x as int, bb.max_x as int);
    let gy = gap(p.y as int, bb.min_y as int, bb.max_y as int);
    lemma_abs_sq(p.x - q.x);
    lemma_abs_sq(p.y - q.y);
    if p.x - q.x >= 0 {
        lemma_sq_mono(gx, p.x - q.x);
    } else {
        lemma_sq_mono(gx, q.x - p.x);
    }
    if p.y - q.y >= 0 {
        lemma_sq_mono(gy, p.y - q.y);
    } else {
        lemma_sq_mono(gy, q.y - p.y);
    }
}

/// The coordinate of the foot of the perpendicular, scaled by `len`, lies between the
/// box bounds scaled by `len`, and so is at least `gap * len` away from `v * len`.
proof fn lemma_gap_scaled(v: int, lo: int, hi: int, ea: int, eb: int, t: int, len: int)
    requires
        lo <= ea <= hi,
        lo <= eb <= hi,
        0 < t < len,
    ensures
        sq(gap(v, lo, hi) * len) <= sq(v * len - (ea * (len - t) + eb * t)),
{
    let q = ea * (len - t) + eb * t;
    assert(lo * len <= q <= hi * len) by (nonlinear_arith)
        requires
            lo <= ea <= hi,
            lo <= eb <= hi,
            0 < t < len,
            q == ea * (len - t) + eb * t,
    ;
    let g = gap(v, lo, hi);
    if v < lo {
        assert(g * len == lo * len - v * len) by (nonlinear_arith)
            requires
                g == lo - v,
        ;
        lemma_abs_sq(v * len - q);
        lemma_sq_mono(g * len, q - v * len);
    } else if v > hi {
        assert(g * len == v * len - hi * len) by (nonlinear_arith)
            requires
                g == v - hi,
        ;
        lemma_sq_mono(g * len, v * len - q);
    } else {
        lemma_abs_sq(v * len - q);
        assert(g * len == 0) by (nonlinear_arith)
            requires
                g == 0,
        ;
    }
}

proof fn lemma_shift(v: int, ea: int, eb: int, t: int, len: int)
    ensures
        v * len - (ea * (len - t) + eb * t) == (v - ea) * len - (eb - ea) * t,
{
    assert(v * len - (ea * (len - t) + eb * t) == (v - ea) * len - (eb - ea) * t)
        by (nonlinear_arith);
}

proof fn lemma_foot_identity(ux: int, uy: int, wx: int, wy: int)
    ensures
        wx * (ux * ux + uy * uy) - ux * (wx * ux + wy * uy) == -uy * (ux * wy - uy * wx),
{
    assert(wx * (ux * ux + uy * uy) == wx * ux * ux + wx * uy * uy) by (nonlinear_arith);
    assert(ux * (wx * ux + wy * uy) == wx * ux * ux + ux * wy * uy) by (nonlinear_arith);
    assert(-uy * (ux * wy - uy * wx) == wx * uy * uy - ux * wy * uy) by (nonlinear_arith);
}

proof fn lemma_sum_of_squares(ux: int, uy: int, c: int)
    ensures
        sq(-uy * c) + sq(ux * c) == (ux * ux + uy * uy) * sq(c),
{
    assert(sq(-uy * c) == uy * uy * (c * c)) by (nonlinear_arith);
    assert(sq(ux * c) == ux * ux * (c * c)) by (nonlinear_arith);
    assert((ux * ux + uy * uy) * (c * c) == ux * ux * (c * c) + uy * uy * (c * c))
        by (nonlinear_arith);
}

proof fn lemma_divide_out(gx: int, gy: int, len: int, x2: int, y2: int, c2: int)
    requires
        sq(gx * len) <= x2,
        sq(gy * len) <= y2,
        x2 + y2 == len * c2,
        len > 0,
    ensures
        (sq(gx) + sq(gy)) * len <= c2,
{
    assert(sq(gx * len) == sq(gx) * len * len) by (nonlinear_arith);
    assert(sq(gy * len) == sq(gy) * len * len) by (nonlinear_arith);
    let d = sq(gx) + sq(gy);
    assert(d * len * len <= len * c2) by (nonlinear_arith)
        requires
            sq(gx) * len * len + sq(gy) * len * len <= len * c2,
            d == sq(gx) + sq(gy),
    ;
    assert(d * len <= c2) by (nonlinear_arith)
        requires
            d * len * len <= len * c2,
            len > 0,
    ;
}

/// Every point of a segment inside the box is at least as far from `p` as the box.
pub proof fn lemma_box_dist2_segment(p: Point, a: Point, b: Point, bb: BBox)
    requires
        in_box(a, bb),
        in_box(b, bb),
    ensures
        frac_le((box_dist2(p, bb), 1), seg_dist2(p, a, b)),
{
    lemma_box_dist2_point(p, a, bb);
    lemma_box_dist2_point(p, b, bb);
    let t = dot_spec(p, a, b);
    let len = dist2(a, b);
    if 0 < t < len {
        let (ux, uy, wx, wy) = (b.x - a.x, b.y - a.y, p.x - a.x, p.y - a.y);
        let c = cross_spec(p, a, b);
        lemma_abs_sq(a.x - b.x);
        lemma_abs_sq(a.y - b.y);
        assert(len == ux * ux + uy * uy);
        let xx = p.x * len - (a.x * (len - t) + b.x * t);
        let yy = p.y * len - (a.y * (len - t) + b.y * t);
        lemma_shift(p.x as int, a.x as int, b.x as int, t, len);
        lemma_shift(p.y as int, a.y as int, b.y as int, t, len);
        lemma_foot_identity(ux as int, uy as int, wx as int, wy as int);
        lemma_foot_identity(uy as int, -ux, wy as int, -wx);
        assert(c == ux * wy - uy * wx);
        assert(-ux * -wx == ux * wx) by (nonlinear_arith);
        assert(-ux * -ux == ux * ux) by (nonlinear_arith);
        assert(uy * -wx - -ux * wy == c) by (nonlinear_arith)
            requires
                c == ux * wy - uy * wx,
        ;
        assert(xx == -uy * c);
        assert(yy == ux * c);
        lemma_gap_scaled(p.x as int, bb.min_x as int, bb.max_x as int, a.x as int, b.x as int, t, len);
        lemma_gap_scaled(p.y as int, bb.min_y as int, bb.max_y as int, a.y as int, b.y as int, t, len);
        let gx = gap(p.x as int, bb.min_x as int, bb.max_x as int);
        let gy = gap(p.y as int, bb.min_y as int, bb.max_y as int);
        lemma_sum_of_squares(ux as int, uy as int, c);
        lemma_divide_out(gx, gy, len, sq(xx), sq(yy), sq(c));
    }
}

/// Squared distance between two points.
pub fn point_dist2(p: Point, q: Point) -> (r: u64)
    ensures
        r == dist2(p, q),
{
    let dx: i64 = p.x as i64 - q.x as i64;
    let dy: i64 = p.y as i64 - q.y as i64;
    proof {
        lemma_sq_bound(dx as int);
        lemma_sq_bound(dy as int);
    }
    (dx * dx + dy * dy) as u64
}

/// Exact squared distance from `p` to the segment of `e`.
pub fn segment_dist2(p: Point, e: &Edge) -> (r: SquaredDistance)
    ensures
        r@ == seg_dist2(p, e.a, e.b),
        frac_bounded(r@),
{
    proof {
        lemma_seg_dist2_bounded(p, e.a, e.b);
    }
    let ux: i64 = e.b.x as i64 - e.a.x as i64;
    let uy: i64 = e.b.y as i64 - e.a.y as i64;
    let wx: i64 = p.x as i64 - e.a.x as i64;
    let wy: i64 = p.y as i64 - e.a.y as i64;
    proof {
        assert(-65535 * 65535 <= wx * ux <= 65535 * 65535) by (nonlinear_arith)
            requires
                -65535 <= ux <= 65535,
                -65535 <= wx <= 65535,
        ;
        assert(-65535 * 65535 <= wy * uy <= 65535 * 65535) by (nonlinear_arith)
            requires
                -65535 <= uy <= 65535,
                -65535 <= wy <= 65535,
        ;
        assert(-65535 * 65535 <= ux * wy <= 65535 * 65535) by (nonlinear_arith)
            requires
                -65535 <= ux <= 65535,
                -65535 <= wy <= 65535,
        ;
        assert(-65535 * 65535 <= uy * wx <= 65535 * 65535) by (nonlinear_arith)
            requires
                -65535 <= uy <= 65535,
                -65535 <= wx <= 65535,
        ;
    }
    let t: i64 = wx * ux + wy * uy;
    let len: u64 = point_dist2(e.a, e.b);
    if t <= 0 {
        SquaredDistance { num: point_dist2(p, e.a) as u128, den: 1 }
    } else if t as u64 >= len {
        SquaredDistance { num: point_dist2(p, e.b) as u128, den: 1 }
    } else {
        let c: i64 = ux * wy - uy * wx;
        let c2: i128 = c as i128 * c as i128;
        SquaredDistance { num: c2 as u128, den: len as u128 }
    }
}

impl SquaredDistance {
    /// Whether `self` is strictly smaller than `other`.
    pub fn less_than(&self, other: &SquaredDistance) -> (r: bool)
        requires
            frac_bounded(self@),
            frac_bounded(other@),
        ensures
            r == frac_lt(self@, other@),
    {
        proof {
            assert(0 <= self.num * other.den < 0x10_0000_0000_0000_0000_0000_0000)
                by (nonlinear_arith)
                requires
                    0 <= self.num < 0x4_0000_0000_0000_0000,
                    0 < other.den < 0x4_0000_0000,
            ;
            assert(0 <= other.num * self.den < 0x10_0000_0000_0000_0000_0000_0000)
                by (nonlinear_arith)
                requires
                    0 <= other.num < 0x4_0000_0000_0000_0000,
                    0 < self.den < 0x4_0000_0000,
            ;
        }
        self.num * other.den < other.num * self.den
    }
}

/// Squared distance from `p` to the box.
pub fn box_distance2(p: Point, bb: &BBox) -> (r: u64)
    ensures
        r == box_dist2(p, *bb),
{
    let gx: i64 = if p.x < bb.min_x {
        bb.min_x as i64 - p.x as i64
    } else if p.x > bb.max_x {
        p.x as i64 - bb.max_x as i64
    } else {
        0
    };
    let gy: i64 = if p.y < bb.min_y {
        bb.min_y as i64 - p.y as i64
    } else if p.y > bb.max_y {
        p.y as i64 - bb.max_y as i64
    } else {
        0
    };
    proof {
        lemma_sq_bound(gx as int);
        lemma_sq_bound(gy as int);
    }
    (gx * gx + gy * gy) as u64
}

/// Whether the segment of `e` crosses the horizontal ray from `p` towards `+x`.
pub fn edge_crosses_ray(p: Point, e: &Edge) -> (r: bool)
    ensures
        r == crosses_ray(p, *e),
{
    let ux: i64 = e.b.x as i64 - e.a.x as i64;
    let uy: i64 = e.b.y as i64 - e.a.y as i64;
    let wx: i64 = p.x as i64 - e.a.x as i64;
    let wy: i64 = p.y as i64 - e.a.y as i64;
    proof {
        assert(-65535 * 65535 <= ux * wy <= 65535 * 65535) by (nonlinear_arith)
            requires
                -65535 <= ux <= 65535,
                -65535 <= wy <= 65535,
        ;
        assert(-65535 * 65535 <= uy * wx <= 65535 * 65535) by (nonlinear_arith)
            requires
                -65535 <= uy <= 65535,
                -65535 <= wx <= 65535,
        ;
    }
    let c: i64 = ux * wy - uy * wx;
    (e.a.y <= p.y && p.y < e.b.y && c > 0) || (e.b.y <= p.y && p.y < e.a.y && c < 0)
}

} // verus!
