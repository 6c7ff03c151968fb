//! Grayscale rasters, their inverse-binary adaptive threshold, and the
//! extraction of object centroids from the traced contours.
use vstd::prelude::*;

use crate::error::AnalysisError;
use crate::geometry::{
    Centroid, PixelPoint, centroid_of, polygon_centroid, twice_area,
    twice_signed_area,
};

verus! {

/// Offset subtracted from the local mean to obtain each pixel's threshold.
pub const THRESHOLD_OFFSET: u8 = 2;

/// Contours whose doubled enclosed area is at most this are noise.
pub const MIN_TWICE_AREA: i128 = 100;

/// Value of a pixel classified as part of an object.
pub const OBJECT: u8 = 0;

/// Value of a pixel classified as background.
pub const BACKGROUND: u8 = 255;

/// A grayscale raster of `width * height` intensities in row-major order.
#[derive(Clone, Debug)]
pub struct GrayRaster {
    pub width: u32,
    pub height: u32,
    pub pixels: Vec<u8>,
}

impl GrayRaster {
    /// The pixel buffer holds exactly one intensity per pixel.
    pub open spec fn wf(&self) -> bool {
        self.pixels@.len() == self.width as int * self.height as int
    }
}

/// Inverse-binary threshold of one pixel against its local mean:
/// `OBJECT` when `pixel > mean - 2`, else `BACKGROUND`.
pub open spec fn threshold_pixel(pixel: u8, mean: u8) -> u8 {
    if pixel as int > mean as int - THRESHOLD_OFFSET as int {
        OBJECT
    } else {
        BACKGROUND
    }
}

/// The thresholded image of `pixels` against the local means `means`.
pub open spec fn threshold_image(pixels: Seq<u8>, means: Seq<u8>) -> Seq<u8>
    recommends
        pixels.len() == means.len(),
{
    Seq::new(pixels.len(), |i: int| threshold_pixel(pixels[i], means[i]))
}

/// Binarizes `pixels` against the local-mean image `means` (same size).
pub fn binarize(pixels: &Vec<u8>, means: &Vec<u8>) -> (r: Vec<u8>)
    requires
        pixels@.len() == means@.len(),
    ensures
        r@ == threshold_image(pixels@, means@),
{
    let n = pixels.len();
    let mut out: Vec<u8> = Vec::with_capacity(n);
    let mut i: usize = 0;
    while i < n
        invariant
            n == pixels@.len(),
            n == means@.len(),
            i <= n,
            out@.len() == i,
            forall|k: int| 0 <= k < i ==> out@[k] == threshold_pixel(pixels@[k], means@[k]),
        decreases n - i,
    {
        let p = pixels[i];
        let m = means[i];
        let v: u8 = if (p as u16) + (THRESHOLD_OFFSET as u16) > (m as u16) {
            OBJECT
        } else {
            BACKGROUND
        };
        out.push(v);
        i = i + 1;
    }
    assert(out@ =~= threshold_image(pixels@, means@));
    out
}

/// The border contours that contour tracing finds in a `width x height`
/// raster, where every non-zero pixel is foreground.
pub uninterp spec fn contours_of(width: u32, height: u32, pixels: Seq<u8>) -> Seq<
    Seq<PixelPoint>,
>;

/// Relies on `imageproc::contours::find_contours`: the borders of the
/// non-zero regions, in the order it finds them; each border point is a pixel
/// of the raster. Rasters of 2^30 pixels or more are left out: its `i32` point
/// coordinates and border counter (one per border found) must not overflow.
#[verifier::external_body]
fn trace_contours(width: u32, height: u32, pixels: &Vec<u8>) -> (r: Vec<Vec<PixelPoint>>)
    requires
        pixels@.len() == width as int * height as int,
        (width as int) * (height as int) < 0x4000_0000,
    ensures
        r@.len() == contours_of(width, height, pixels@).len(),
        forall|i: int|
            0 <= i < r@.len() ==> (#[trigger] r@[i])@ == contours_of(width, height, pixels@)[i],
        forall|i: int, j: int|
            0 <= i < r@.len() && 0 <= j < r@[i]@.len() ==> 0 <= (#[trigger] r@[i]@[j]).0 < width
                && 0 <= r@[i]@[j].1 < height,
{
    let image = image::GrayImage::from_raw(width, height, pixels.clone()).unwrap();
    imageproc::contours::find_contours::<i32>(&image)
        .into_iter()
        .map(|c| c.points.into_iter().map(|p| (p.x, p.y)).collect())
        .collect()
}

/// Whether a contour encloses more than the noise threshold of area.
pub open spec fn is_object(contour: Seq<PixelPoint>) -> bool {
    twice_area(contour) > MIN_TWICE_AREA || twice_area(contour) < -MIN_TWICE_AREA
}

/// The contours among the first `i` that enclose an object, in order.
pub open spec fn objects_upto(contours: Seq<Seq<PixelPoint>>, i: nat) -> Seq<Seq<PixelPoint>>
    decreases i,
{
    if i == 0 {
        seq![]
    } else {
        let prev = objects_upto(contours, (i - 1) as nat);
        if is_object(contours[i - 1]) {
            prev.push(contours[i - 1])
        } else {
            prev
        }
    }
}

/// The object contours of `contours`, in order.
pub open spec fn object_contours(contours: Seq<Seq<PixelPoint>>) -> Seq<Seq<PixelPoint>> {
    objects_upto(contours, contours.len())
}

/// The centroids of the object contours of `contours`, in order.
pub open spec fn object_centroids(contours: Seq<Seq<PixelPoint>>) -> Seq<Centroid> {
    object_contours(contours).map_values(|c: Seq<PixelPoint>| centroid_of(c))
}

/// The object contours of a raster binarized against its local means.
pub open spec fn raster_objects(image: GrayRaster, means: GrayRaster) -> Seq<Seq<PixelPoint>> {
    object_contours(
        contours_of(image.width, image.height, threshold_image(image.pixels@, means.pixels@)),
    )
}

/// Whether contour tracing can run on the pair: both rasters well formed, of
/// the same non-zero size, and of fewer than 2^30 pixels.
pub open spec fn traceable(image: GrayRaster, means: GrayRaster) -> bool {
    &&& image.wf()
    &&& means.wf()
    &&& image.width == means.width
    &&& image.height == means.height
    &&& image.width > 0
    &&& image.height > 0
    &&& (image.width as int) * (image.height as int) <= 0x3fff_ffff
}

proof fn lemma_frame_product(x: int, y: int, w: int, h: int)
    requires
        0 <= x < w,
        0 <= y < h,
    ensures
        x * y < w * h,
{
    assert(x * y < w * h) by (nonlinear_arith)
        requires
            0 <= x < w,
            0 <= y < h,
    ;
}

/// The number of pixels of a `width x height` raster.
fn pixel_count(width: u32, height: u32) -> (r: u64)
    ensures
        r == width as int * height as int,
{
    assert((width as int) * (height as int) <= 0xffff_ffff * 0xffff_ffff) by (nonlinear_arith)
        requires
            width <= 0xffff_ffff,
            height <= 0xffff_ffff,
    ;
    (width as u64) * (height as u64)
}

/// A copy of a contour's points.
fn copy_points(points: &Vec<PixelPoint>) -> (r: Vec<PixelPoint>)
    ensures
        r@ == points@,
{
    let mut out: Vec<PixelPoint> = Vec::with_capacity(points.len());
    let mut i: usize = 0;
    while i < points.len()
        invariant
            i <= points@.len(),
            out@ == points@.subrange(0, i as int),
        decreases points@.len() - i,
    {
        out.push(points[i]);
        i = i + 1;
    }
    assert(out@ =~= points@);
    out
}

/// Binarizes `image` against its local-mean image `means` (the original
/// blurred), traces the region borders, keeps those enclosing more than the
/// noise area, and returns their centroids together with the kept contours.
pub fn extract_object_centroids(image: &GrayRaster, means: &GrayRaster) -> (r: Result<
    (Vec<Centroid>, Vec<Vec<PixelPoint>>),
    AnalysisError,
>)
    ensures
        r is Err <==> !traceable(*image, *means),
        r matches Err(e) ==> e == AnalysisError::GeometryError,
        r matches Ok((cs, kept)) ==> {
            &&& kept@.len() == raster_objects(*image, *means).len()
            &&& forall|i: int|
                0 <= i < kept@.len() ==> (#[trigger] kept@[i])@ == raster_objects(*image, *means)[i]
            &&& cs@ == raster_objects(*image, *means).map_values(|c: Seq<PixelPoint>| centroid_of(c))
            &&& forall|i: int| 0 <= i < cs@.len() ==> (#[trigger] cs@[i]).den != 0
        },
{
    let image_size = pixel_count(image.width, image.height);
    let means_size = pixel_count(means.width, means.height);
    if image.pixels.len() as u64 != image_size || means.pixels.len() as u64 != means_size
        || image.width != means.width || image.height != means.height || image.width == 0
        || image.height == 0 || image_size > 0x3fff_ffff {
        return Err(AnalysisError::GeometryError);
    }
    let w = image.width;
    let h = image.height;
    let binary = binarize(&image.pixels, &means.pixels);
    let contours = trace_contours(w, h, &binary);
    let ghost all = contours_of(w, h, binary@);
    let mut centroids: Vec<Centroid> = Vec::new();
    let mut kept: Vec<Vec<PixelPoint>> = Vec::new();
    let mut i: usize = 0;
    while i < contours.len()
        invariant
            i <= contours@.len(),
            contours@.len() == all.len(),
            forall|k: int| 0 <= k < contours@.len() ==> (#[trigger] contours@[k])@ == all[k],
            forall|k: int, j: int|
                0 <= k < contours@.len() && 0 <= j < contours@[k]@.len() ==> 0 <= (
                #[trigger] contours@[k]@[j]).0 < w && 0 <= contours@[k]@[j].1 < h,
            (w as int) * (h as int) <= 0x3fff_ffff,
            kept@.len() == objects_upto(all, i as nat).len(),
            forall|k: int|
                0 <= k < kept@.len() ==> (#[trigger] kept@[k])@ == objects_upto(all, i as nat)[k],
            centroids@ == objects_upto(all, i as nat).map_values(
                |c: Seq<PixelPoint>| centroid_of(c),
            ),
            forall|k: int| 0 <= k < centroids@.len() ==> (#[trigger] centroids@[k]).den != 0,
        decreases contours@.len() - i,
    {
        let contour = &contours[i];
        let area = twice_signed_area(contour);
        if area > MIN_TWICE_AREA || area < -MIN_TWICE_AREA {
            proof {
                assert forall|a: int, b: int|
                    #![trigger contour@[a], contour@[b]]
                    0 <= a < contour@.len() && 0 <= b < contour@.len() implies (contour@[a].0 as int)
                        * (contour@[b].1 as int) < 0x8000_0000 by {
                    assert(0 <= contours@[i as int]@[a].0 < w);
                    assert(0 <= contours@[i as int]@[b].1 < h);
                    lemma_frame_product(
                        contour@[a].0 as int,
                        contour@[b].1 as int,
                        w as int,
                        h as int,
                    );
                }
                assert forall|a: int| 0 <= a < contour@.len() implies 0 <= #[trigger] contour@[a].0
                    && 0 <= contour@[a].1 by {
                    assert(0 <= contours@[i as int]@[a].0 < w);
                }
            }
            // An object contour encloses area, so it always has a centroid.
            let c = polygon_centroid(contour);
            match c {
                Some(c) => {
                    centroids.push(c);
                },
                None => {},
            }
            kept.push(copy_points(contour));
        }
        proof {
            let prev = objects_upto(all, i as nat);
            assert(objects_upto(all, (i + 1) as nat) == if is_object(all[i as int]) {
                prev.push(all[i as int])
            } else {
                prev
            });
        }
        i = i + 1;
    }
    Ok((centroids, kept))
}

} // verus!
