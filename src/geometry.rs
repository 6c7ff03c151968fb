//! Polygon geometry of traced contours: signed area and area-weighted centroid,
//! computed exactly over integer pixel coordinates.
use vstd::prelude::*;

verus! {

/// A contour vertex: integer pixel coordinates `(x, y)`.
pub type PixelPoint = (i32, i32);

/// The vertex that follows vertex `i` on a closed polygon of `n` vertices.
pub open spec fn succ(n: int, i: int) -> int {
    if i + 1 == n {
        0
    } else {
        i + 1
    }
}

/// The shoelace term `x_i * y_j - x_j * y_i` of the edge from `p` to `q`.
pub open spec fn cross(p: PixelPoint, q: PixelPoint) -> int {
    p.0 as int * q.1 as int - q.0 as int * p.1 as int
}

/// The shoelace term of edge `i` of polygon `pts`.
pub open spec fn edge_cross(pts: Seq<PixelPoint>, i: int) -> int {
    cross(pts[i], pts[succ(pts.len() as int, i)])
}

/// Sum of the shoelace terms of the first `i` edges.
pub open spec fn shoelace_upto(pts: Seq<PixelPoint>, i: nat) -> int
    decreases i,
{
    if i == 0 {
        0
    } else {
        shoelace_upto(pts, (i - 1) as nat) + edge_cross(pts, i - 1)
    }
}

/// Sum over the first `i` edges of `(x_i + x_j) * cross_i`.
pub open spec fn moment_x_upto(pts: Seq<PixelPoint>, i: nat) -> int
    decreases i,
{
    if i == 0 {
        0
    } else {
        moment_x_upto(pts, (i - 1) as nat) + (pts[i - 1].0 as int + pts[succ(
            pts.len() as int,
            i - 1,
        )].0 as int) * edge_cross(pts, i - 1)
    }
}

/// Sum over the first `i` edges of `(y_i + y_j) * cross_i`.
pub open spec fn moment_y_upto(pts: Seq<PixelPoint>, i: nat) -> int
    decreases i,
{
    if i == 0 {
        0
    } else {
        moment_y_upto(pts, (i - 1) as nat) + (pts[i - 1].1 as int + pts[succ(
            pts.len() as int,
            i - 1,
        )].1 as int) * edge_cross(pts, i - 1)
    }
}

/// Twice the signed area of a closed polygon (shoelace formula); zero for
/// fewer than three vertices.
pub open spec fn twice_area(pts: Seq<PixelPoint>) -> int {
    if pts.len() < 3 {
        0
    } else {
        shoelace_upto(pts, pts.len())
    }
}

/// Whether a polygon has no well-defined centroid.
pub open spec fn is_degenerate(pts: Seq<PixelPoint>) -> bool {
    pts.len() < 3 || twice_area(pts) == 0
}

/// Coordinates of a contour of a raster of fewer than 2^31 pixels: none is
/// negative and every product `x_i * y_j` stays below 2^31.
pub open spec fn pixel_polygon(pts: Seq<PixelPoint>) -> bool {
    &&& forall|i: int| 0 <= i < pts.len() ==> 0 <= #[trigger] pts[i].0 && 0 <= pts[i].1
    &&& forall|i: int, j: int|
        #![trigger pts[i], pts[j]]
        0 <= i < pts.len() && 0 <= j < pts.len() ==> (pts[i].0 as int) * (pts[j].1 as int)
            < 0x8000_0000
}

/// An exact centroid: the point `(x_num / den, y_num / den)`, with `den != 0`.
#[derive(Clone, Copy, Debug, PartialEq, Eq)]
pub struct Centroid {
    pub x_num: i128,
    pub y_num: i128,
    pub den: i128,
}

/// The area-weighted centroid of a non-degenerate polygon:
/// `Cx = sum((x_i + x_j) * cross_i) / (6A)`, with `6A = 3 * twice_area`.
pub open spec fn centroid_of(pts: Seq<PixelPoint>) -> Centroid
    recommends
        !is_degenerate(pts),
{
    Centroid {
        x_num: moment_x_upto(pts, pts.len()) as i128,
        y_num: moment_y_upto(pts, pts.len()) as i128,
        den: (3 * twice_area(pts)) as i128,
    }
}

proof fn lemma_product_bound(s: int, c: int)
    requires
        0 <= s < 0x1_0000_0000,
        -0x8000_0000 < c < 0x8000_0000,
    ensures
        -0x8000_0000_0000_0000 < s * c < 0x8000_0000_0000_0000,
{
    assert(-0x8000_0000_0000_0000 < s * c < 0x8000_0000_0000_0000) by (nonlinear_arith)
        requires
            0 <= s < 0x1_0000_0000,
            -0x8000_0000 < c < 0x8000_0000,
    ;
}

proof fn lemma_i32_products(a: i32, b: i32, c: i32, d: i32)
    ensures
        -0x4000_0000_0000_0000 <= a as int * b as int <= 0x4000_0000_0000_0000,
        -0x8000_0000_0000_0000 <= a as int * b as int - c as int * d as int
            <= 0x8000_0000_0000_0000,
{
    let (a, b, c, d) = (a as int, b as int, c as int, d as int);
    assert(-0x4000_0000_0000_0000 <= a * b <= 0x4000_0000_0000_0000) by (nonlinear_arith)
        requires
            -0x8000_0000 <= a < 0x8000_0000,
            -0x8000_0000 <= b < 0x8000_0000,
    ;
    assert(-0x4000_0000_0000_0000 <= c * d <= 0x4000_0000_0000_0000) by (nonlinear_arith)
        requires
            -0x8000_0000 <= c < 0x8000_0000,
            -0x8000_0000 <= d < 0x8000_0000,
    ;
}

/// Twice the signed area of the closed polygon `points` (shoelace formula),
/// or zero when it has fewer than three vertices.
pub fn twice_signed_area(points: &Vec<PixelPoint>) -> (r: i128)
    ensures
        r == twice_area(points@),
{
    let n = points.len();
    if n < 3 {
        return 0;
    }
    let mut acc: i128 = 0;
    let mut i: usize = 0;
    while i < n
        invariant
            n == points@.len(),
            n >= 3,
            i <= n,
            acc == shoelace_upto(points@, i as nat),
            -(i as int) * 0x8000_0000_0000_0000 <= acc <= (i as int) * 0x8000_0000_0000_0000,
        decreases n - i,
    {
        let j: usize = if i + 1 == n {
            0
        } else {
            i + 1
        };
        let (xi, yi) = points[i];
        let (xj, yj) = points[j];
        proof {
            lemma_i32_products(xi, yj, xj, yi);
            lemma_i32_products(xj, yi, xi, yj);
        }
        let term: i128 = (xi as i128) * (yj as i128) - (xj as i128) * (yi as i128);
        acc = acc + term;
        i = i + 1;
    }
    acc
}

proof fn lemma_pixel_terms(pts: Seq<PixelPoint>, i: int)
    requires
        pixel_polygon(pts),
        pts.len() >= 3,
        0 <= i < pts.len(),
    ensures
        -0x8000_0000 < edge_cross(pts, i) < 0x8000_0000,
        0 <= (pts[i].0 as int) + (pts[succ(pts.len() as int, i)].0 as int) < 0x1_0000_0000,
        0 <= (pts[i].1 as int) + (pts[succ(pts.len() as int, i)].1 as int) < 0x1_0000_0000,
        -0x8000_0000_0000_0000 < (pts[i].0 as int + pts[succ(pts.len() as int, i)].0 as int)
            * edge_cross(pts, i) < 0x8000_0000_0000_0000,
        -0x8000_0000_0000_0000 < (pts[i].1 as int + pts[succ(pts.len() as int, i)].1 as int)
            * edge_cross(pts, i) < 0x8000_0000_0000_0000,
{
    let j = succ(pts.len() as int, i);
    let p = pts[i];
    let q = pts[j];
    assert(0 <= p.0 && 0 <= p.1);
    assert(0 <= q.0 && 0 <= q.1);
    assert((p.0 as int) * (q.1 as int) < 0x8000_0000);
    assert((q.0 as int) * (p.1 as int) < 0x8000_0000);
    assert(0 <= p.0 as int * q.1 as int) by (nonlinear_arith)
        requires
            0 <= p.0,
            0 <= q.1,
    ;
    assert(0 <= q.0 as int * p.1 as int) by (nonlinear_arith)
        requires
            0 <= q.0,
            0 <= p.1,
    ;
    lemma_product_bound(p.0 as int + q.0 as int, edge_cross(pts, i));
    lemma_product_bound(p.1 as int + q.1 as int, edge_cross(pts, i));
}

/// The area-weighted centroid of the closed polygon `points`, or `None` when
/// the polygon is degenerate (fewer than three vertices, or zero signed area).
pub fn polygon_centroid(points: &Vec<PixelPoint>) -> (r: Option<Centroid>)
    requires
        pixel_polygon(points@),
    ensures
        r is None <==> is_degenerate(points@),
        r matches Some(c) ==> c == centroid_of(points@) && c.den != 0,
{
    let n = points.len();
    if n < 3 {
        return None;
    }
    let mut area: i128 = 0;
    let mut mx: i128 = 0;
    let mut my: i128 = 0;
    let mut i: usize = 0;
    while i < n
        invariant
            n == points@.len(),
            n >= 3,
            i <= n,
            pixel_polygon(points@),
            area == shoelace_upto(points@, i as nat),
            mx == moment_x_upto(points@, i as nat),
            my == moment_y_upto(points@, i as nat),
            -(i as int) * 0x8000_0000 <= area <= (i as int) * 0x8000_0000,
            -(i as int) * 0x8000_0000_0000_0000 <= mx <= (i as int) * 0x8000_0000_0000_0000,
            -(i as int) * 0x8000_0000_0000_0000 <= my <= (i as int) * 0x8000_0000_0000_0000,
        decreases n - i,
    {
        let j: usize = if i + 1 == n {
            0
        } else {
            i + 1
        };
        proof {
            lemma_pixel_terms(points@, i as int);
        }
        let (xi, yi) = points[i];
        let (xj, yj) = points[j];
        let c: i128 = (xi as i128) * (yj as i128) - (xj as i128) * (yi as i128);
        area = area + c;
        mx = mx + ((xi as i128) + (xj as i128)) * c;
        my = my + ((yi as i128) + (yj as i128)) * c;
        i = i + 1;
    }
    if area == 0 {
        return None;
    }
    Some(Centroid { x_num: mx, y_num: my, den: 3 * area })
}

} // verus!
