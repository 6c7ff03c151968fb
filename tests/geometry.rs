use spiral_composition::error::AnalysisError;
use spiral_composition::geometry::{polygon_centroid, twice_signed_area};
use spiral_composition::raster::{binarize, extract_object_centroids, GrayRaster};

#[test]
fn unit_square_area_and_centroid() {
    let square = vec![(0, 0), (1, 0), (1, 1), (0, 1)];
    let twice = twice_signed_area(&square);
    assert_eq!(twice, 2);
    assert_eq!(twice as f64 / 2.0, 1.0);
    let c = polygon_centroid(&square).expect("a unit square has a centroid");
    assert_eq!(c.x_num as f64 / c.den as f64, 0.5);
    assert_eq!(c.y_num as f64 / c.den as f64, 0.5);
}

#[test]
fn clockwise_square_has_negative_area_and_same_centroid() {
    let square = vec![(0, 0), (0, 4), (4, 4), (4, 0)];
    assert_eq!(twice_signed_area(&square), -32);
    let c = polygon_centroid(&square).unwrap();
    assert_eq!(c.x_num as f64 / c.den as f64, 2.0);
    assert_eq!(c.y_num as f64 / c.den as f64, 2.0);
}

#[test]
fn triangle_centroid() {
    let tri = vec![(0, 0), (6, 0), (0, 3)];
    assert_eq!(twice_signed_area(&tri), 18);
    let c = polygon_centroid(&tri).unwrap();
    assert_eq!(c.x_num as f64 / c.den as f64, 2.0);
    assert_eq!(c.y_num as f64 / c.den as f64, 1.0);
}

#[test]
fn degenerate_contours_have_no_centroid() {
    assert_eq!(polygon_centroid(&vec![]), None);
    assert_eq!(polygon_centroid(&vec![(3, 4)]), None);
    assert_eq!(polygon_centroid(&vec![(0, 0), (5, 5)]), None);
    assert_eq!(polygon_centroid(&vec![(0, 0), (1, 1), (2, 2)]), None);
    assert_eq!(twice_signed_area(&vec![(0, 0), (5, 5)]), 0);
}

#[test]
fn binarize_marks_pixels_above_mean_minus_offset_as_objects() {
    let pixels = vec![10, 10, 10, 0, 255];
    let means = vec![20, 12, 11, 2, 255];
    assert_eq!(binarize(&pixels, &means), vec![255, 255, 0, 255, 0]);
}

fn square_scene(side: u32, lo: u32, hi: u32) -> (GrayRaster, GrayRaster) {
    let mut pixels = Vec::new();
    for y in 0..side {
        for x in 0..side {
            let inside = x >= lo && x <= hi && y >= lo && y <= hi;
            pixels.push(if inside { 50u8 } else { 200u8 });
        }
    }
    let n = pixels.len();
    let image = GrayRaster { width: side, height: side, pixels };
    let means = GrayRaster { width: side, height: side, pixels: vec![128u8; n] };
    (image, means)
}

#[test]
fn extract_finds_one_dark_square() {
    let (image, means) = square_scene(40, 10, 29);
    let (centroids, contours) = extract_object_centroids(&image, &means).unwrap();
    assert_eq!(centroids.len(), 1);
    assert_eq!(contours.len(), 1);
    let c = centroids[0];
    assert_eq!(c.x_num as f64 / c.den as f64, 19.5);
    assert_eq!(c.y_num as f64 / c.den as f64, 19.5);
}

#[test]
fn extract_drops_small_regions() {
    let (image, means) = square_scene(40, 10, 14);
    let (centroids, contours) = extract_object_centroids(&image, &means).unwrap();
    assert!(centroids.is_empty());
    assert!(contours.is_empty());
}

#[test]
fn extract_on_blank_image_finds_nothing() {
    let image = GrayRaster { width: 8, height: 8, pixels: vec![200u8; 64] };
    let means = GrayRaster { width: 8, height: 8, pixels: vec![200u8; 64] };
    let (centroids, _) = extract_object_centroids(&image, &means).unwrap();
    assert!(centroids.is_empty());
}

#[test]
fn extract_rejects_unsuitable_rasters() {
    let empty = GrayRaster { width: 0, height: 0, pixels: vec![] };
    assert_eq!(extract_object_centroids(&empty, &empty), Err(AnalysisError::GeometryError));
    let image = GrayRaster { width: 4, height: 4, pixels: vec![0u8; 16] };
    let short = GrayRaster { width: 4, height: 4, pixels: vec![0u8; 15] };
    assert_eq!(extract_object_centroids(&image, &short), Err(AnalysisError::GeometryError));
    let other = GrayRaster { width: 2, height: 8, pixels: vec![0u8; 16] };
    assert_eq!(extract_object_centroids(&image, &other), Err(AnalysisError::GeometryError));
}
