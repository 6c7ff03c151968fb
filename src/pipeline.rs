//! The decisions around the core steps: how many objects an analysis needs,
//! which cluster count is used, what a preview shows, and the size to which
//! an input image is scaled down.
use vstd::prelude::*;

use crate::error::AnalysisError;
use crate::spiral::FixedPoint;

verus! {

/// A full composition score needs at least this many detected objects.
pub const MIN_OBJECTS_FOR_SCORE: usize = 3;

/// A cluster preview needs at least this many detected objects.
pub const MIN_OBJECTS_FOR_PREVIEW: usize = 2;

/// The elbow sweep considers at most this many clusters.
pub const MAX_CLUSTERS: usize = 10;

/// The largest side of an image that is analysed unscaled.
pub const MAX_SIDE: u32 = 1024;

/// Fails with `InputError` when fewer than `minimum` objects were detected.
pub fn require_objects(count: usize, minimum: usize) -> (r: Result<(), AnalysisError>)
    ensures
        r is Err <==> count < minimum,
        r matches Err(e) ==> e == AnalysisError::InputError,
{
    if count < minimum {
        Err(AnalysisError::InputError)
    } else {
        Ok(())
    }
}

/// The cluster count requested by the caller, clamped to `[1, num_centroids]`,
/// or `None` when the caller asked for none (`k == 0`) and the elbow method
/// decides.
pub fn requested_clusters(num_centroids: usize, k: usize) -> (r: Option<usize>)
    ensures
        k == 0 ==> r is None,
        k > 0 ==> r == Some(if k < num_centroids {
            k
        } else {
            num_centroids
        }),
{
    if k == 0 {
        None
    } else if k < num_centroids {
        Some(k)
    } else {
        Some(num_centroids)
    }
}

/// What a cluster preview shows as cluster centers.
#[derive(Clone, Copy, Debug, PartialEq, Eq, Structural)]
pub enum PreviewCenters {
    /// The mean of the detected centroids, as one center.
    Mean,
    /// The centers of a k-means fit with this many clusters.
    Clusters(usize),
    /// No centers.
    Nothing,
}

/// The preview of `num_centroids` centroids for a requested count `k`: an
/// `InputError` for fewer than two centroids, else their mean for `k == 1`,
/// `min(k, n)` clusters for `k >= 2`, and nothing for `k == 0`.
pub fn preview_centers(num_centroids: usize, k: usize) -> (r: Result<PreviewCenters, AnalysisError>)
    ensures
        num_centroids < MIN_OBJECTS_FOR_PREVIEW ==> r == Err::<PreviewCenters, AnalysisError>(
            AnalysisError::InputError,
        ),
        num_centroids >= MIN_OBJECTS_FOR_PREVIEW && k == 1 ==> r == Ok::<
            PreviewCenters,
            AnalysisError,
        >(PreviewCenters::Mean),
        num_centroids >= MIN_OBJECTS_FOR_PREVIEW && k >= 2 ==> r == Ok::<
            PreviewCenters,
            AnalysisError,
        >(
            PreviewCenters::Clusters(
                if k < num_centroids {
                    k
                } else {
                    num_centroids
                },
            ),
        ),
        num_centroids >= MIN_OBJECTS_FOR_PREVIEW && k == 0 ==> r == Ok::<
            PreviewCenters,
            AnalysisError,
        >(PreviewCenters::Nothing),
{
    if num_centroids < MIN_OBJECTS_FOR_PREVIEW {
        Err(AnalysisError::InputError)
    } else if k == 1 {
        Ok(PreviewCenters::Mean)
    } else if k >= 2 {
        if k < num_centroids {
            Ok(PreviewCenters::Clusters(k))
        } else {
            Ok(PreviewCenters::Clusters(num_centroids))
        }
    } else {
        Ok(PreviewCenters::Nothing)
    }
}

/// Sum of the `x` coordinates of the first `i` points.
pub open spec fn sum_x(points: Seq<FixedPoint>, i: nat) -> int
    decreases i,
{
    if i == 0 {
        0
    } else {
        sum_x(points, (i - 1) as nat) + points[i - 1].x
    }
}

/// Sum of the `y` coordinates of the first `i` points.
pub open spec fn sum_y(points: Seq<FixedPoint>, i: nat) -> int
    decreases i,
{
    if i == 0 {
        0
    } else {
        sum_y(points, (i - 1) as nat) + points[i - 1].y
    }
}

proof fn lemma_mean_in_range(s: int, n: int)
    requires
        n >= 1,
        n * (-0x8000_0000_0000_0000) <= s <= n * 0x7fff_ffff_ffff_ffff,
    ensures
        -0x8000_0000_0000_0000 <= s / n <= 0x7fff_ffff_ffff_ffff,
{
    assert(-0x8000_0000_0000_0000 <= s / n <= 0x7fff_ffff_ffff_ffff) by (nonlinear_arith)
        requires
            n >= 1,
            n * (-0x8000_0000_0000_0000) <= s <= n * 0x7fff_ffff_ffff_ffff,
    ;
}

/// The mean of a non-empty set of points, each coordinate rounded down.
pub fn mean_point(points: &Vec<FixedPoint>) -> (r: FixedPoint)
    requires
        points@.len() > 0,
    ensures
        r.x as int == sum_x(points@, points@.len()) / (points@.len() as int),
        r.y as int == sum_y(points@, points@.len()) / (points@.len() as int),
{
    let n = points.len();
    let mut sx: i128 = 0;
    let mut sy: i128 = 0;
    let mut i: usize = 0;
    while i < n
        invariant
            n == points@.len(),
            i <= n,
            sx as int == sum_x(points@, i as nat),
            sy as int == sum_y(points@, i as nat),
            (i as int) * (-0x8000_0000_0000_0000) <= sx <= (i as int) * 0x7fff_ffff_ffff_ffff,
            (i as int) * (-0x8000_0000_0000_0000) <= sy <= (i as int) * 0x7fff_ffff_ffff_ffff,
        decreases n - i,
    {
        sx = sx + points[i].x as i128;
        sy = sy + points[i].y as i128;
        i = i + 1;
    }
    proof {
        lemma_mean_in_range(sx as int, n as int);
        lemma_mean_in_range(sy as int, n as int);
    }
    let mx = sx.checked_div_euclid(n as i128);
    let my = sy.checked_div_euclid(n as i128);
    match (mx, my) {
        (Some(mx), Some(my)) => FixedPoint { x: mx as i64, y: my as i64 },
        _ => {
            proof {
                assert(false);
            }
            FixedPoint { x: 0, y: 0 }
        },
    }
}

/// Accepts the centers of a k-means fit with `k` clusters: exactly `k` of
/// them, or a `ClusteringError`.
pub fn accept_centers(k: usize, centers: Vec<FixedPoint>) -> (r: Result<
    Vec<FixedPoint>,
    AnalysisError,
>)
    ensures
        r is Ok <==> centers@.len() == k,
        r matches Ok(c) ==> c@ == centers@ && c@.len() == k,
        r matches Err(e) ==> e == AnalysisError::ClusteringError,
{
    if centers.len() == k {
        Ok(centers)
    } else {
        Err(AnalysisError::ClusteringError)
    }
}

/// The size to which a `width x height` image is scaled so that neither side
/// exceeds `max_side`, keeping its aspect ratio (the shorter side rounded
/// down), or `None` when it already fits.
pub fn smart_resize(width: u32, height: u32, max_side: u32) -> (r: Option<(u32, u32)>)
    ensures
        r is None <==> width <= max_side && height <= max_side,
        r matches Some((w, h)) ==> if width > height {
            w == max_side && h as int == (height as int) * (max_side as int) / (width as int)
        } else {
            h == max_side && w as int == (width as int) * (max_side as int) / (height as int)
        },
{
    if width <= max_side && height <= max_side {
        return None;
    }
    if width > height {
        let h = scale_side(height, max_side, width);
        Some((max_side, h))
    } else {
        let w = scale_side(width, max_side, height);
        Some((w, max_side))
    }
}

/// `side * num / den`, rounded down, for `side <= den`.
fn scale_side(side: u32, num: u32, den: u32) -> (r: u32)
    requires
        side <= den,
        den > 0,
    ensures
        r as int == (side as int) * (num as int) / (den as int),
{
    assert((side as int) * (num as int) <= 0xffff_ffff * 0xffff_ffff) by (nonlinear_arith)
        requires
            side <= 0xffff_ffff,
            num <= 0xffff_ffff,
    ;
    assert((side as int) * (num as int) / (den as int) <= num as int) by (nonlinear_arith)
        requires
            side <= den,
            den > 0,
            num >= 0,
    ;
    let p: u64 = (side as u64) * (num as u64);
    (p / (den as u64)) as u32
}

} // verus!
