use image::{imageops, GrayImage, Luma};
use linfa::traits::Fit;
use linfa::DatasetBase;
use linfa_clustering::KMeans;
use rand::rngs::StdRng;
use rand::SeedableRng;
use spiral_composition::elbow::{elbow_sweep_top, find_optimal_k, FIRST_K};
use spiral_composition::pipeline::{accept_centers, require_objects, MIN_OBJECTS_FOR_SCORE};
use spiral_composition::raster::{extract_object_centroids, GrayRaster};
use spiral_composition::search::SpiralSearch;
use spiral_composition::spiral::{
    calculate_composition_score, FixedPoint, SpiralParams, GOLDEN_B, INFINITE_COST,
};

const SIDE: u32 = 400;

/// Five dark disks on white, on the spiral r = 20 e^(0.306 t) around the
/// image centre, a quarter turn apart.
fn spiral_blobs() -> GrayImage {
    let mut img = GrayImage::from_pixel(SIDE, SIDE, Luma([255u8]));
    for q in 0..5 {
        let t = q as f64 * std::f64::consts::FRAC_PI_2;
        let r = 20.0 * (0.306 * t).exp();
        let (bx, by) = (200.0 + r * t.cos(), 200.0 + r * t.sin());
        for y in 0..SIDE {
            for x in 0..SIDE {
                let (dx, dy) = (x as f64 - bx, y as f64 - by);
                if dx * dx + dy * dy <= 49.0 {
                    img.put_pixel(x, y, Luma([0u8]));
                }
            }
        }
    }
    img
}

fn sample(params: &SpiralParams) -> Vec<FixedPoint> {
    let (cx, cy) = (params.cx as f64 / 1000.0, params.cy as f64 / 1000.0);
    let (a, b) = (params.a as f64 / 1000.0, params.b as f64 / 1e6);
    let max_theta = 4.0 * std::f64::consts::PI;
    (0..200)
        .map(|i| {
            let t = -max_theta + 2.0 * max_theta * (i as f64 / 199.0);
            let r = a * (b * t).exp();
            FixedPoint {
                x: ((cx + r * t.cos()) * 1000.0).round() as i64,
                y: ((cy + r * t.sin()) * 1000.0).round() as i64,
            }
        })
        .collect()
}

fn kmeans(points: &[[f64; 2]], k: usize, seed: u64) -> (Vec<[f64; 2]>, f64) {
    let dataset = DatasetBase::new(ndarray::Array2::from(points.to_vec()), ());
    let model = KMeans::params_with_rng(k, StdRng::seed_from_u64(seed))
        .max_n_iterations(100)
        .tolerance(1e-5)
        .fit(&dataset)
        .expect("k-means fits five separated points");
    let centers = model.centroids().outer_iter().map(|r| [r[0], r[1]]).collect();
    (centers, model.inertia())
}

#[test]
fn five_blobs_on_a_golden_spiral_score_well() {
    let gray = spiral_blobs();
    let means = imageops::blur(&gray, 2.0);
    let image = GrayRaster { width: SIDE, height: SIDE, pixels: gray.into_raw() };
    let local = GrayRaster { width: SIDE, height: SIDE, pixels: means.into_raw() };
    let (centroids, _) = extract_object_centroids(&image, &local).unwrap();
    assert!((4..=6).contains(&centroids.len()), "found {} objects", centroids.len());
    assert_eq!(require_objects(centroids.len(), MIN_OBJECTS_FOR_SCORE), Ok(()));
    let points: Vec<[f64; 2]> = centroids
        .iter()
        .map(|c| [c.x_num as f64 / c.den as f64, c.y_num as f64 / c.den as f64])
        .collect();

    let top = elbow_sweep_top(points.len(), 4).unwrap();
    let inertias: Vec<u64> = (FIRST_K..=top)
        .map(|k| (kmeans(&points, k, 1).1 * 1e6).round() as u64)
        .collect();
    let chosen = find_optimal_k(points.len(), 4, &inertias);
    assert!((2..=4).contains(&chosen));

    for k in 2..=4usize {
        let (centers, _) = kmeans(&points, k, 2);
        let fixed: Vec<FixedPoint> = centers
            .iter()
            .map(|p| FixedPoint { x: (p[0] * 1000.0).round() as i64, y: (p[1] * 1000.0).round() as i64 })
            .collect();
        let fixed = accept_centers(k, fixed).unwrap();
        let mut rng = StdRng::seed_from_u64(k as u64);
        let mut search = SpiralSearch::new(&mut rng, SIDE, SIDE, 20_000);
        while !search.is_finished() {
            let distances: Vec<u64> = search
                .population
                .iter()
                .map(|p| calculate_composition_score(&sample(p), &fixed, SIDE, SIDE))
                .collect();
            search.advance(&mut rng, &distances);
        }
        let best = search.best_params();
        let d = calculate_composition_score(&sample(&best), &fixed, SIDE, SIDE);
        assert_ne!(d, INFINITE_COST);
        let distance = d as f64 / 1000.0;
        let b = best.b as f64 / 1e6;
        let golden = GOLDEN_B as f64 / 1e6;
        let score = 100.0 * (0.6 * (-0.05 * distance).exp() + 0.4 * (-50.0 * (b - golden).abs()).exp());
        assert!(score > 50.0, "k = {}: score {} (distance {}, b {})", k, score, distance, b);
    }
}
