use spiral_composition::elbow::{elbow_sweep_top, find_optimal_k, knee_index};
use spiral_composition::error::AnalysisError;
use spiral_composition::pipeline::{
    accept_centers, mean_point, preview_centers, require_objects,
    requested_clusters, smart_resize, PreviewCenters,
};
use spiral_composition::spiral::FixedPoint;

#[test]
fn choose_k_with_fewer_than_two_points_is_one() {
    assert_eq!(find_optimal_k(0, 10, &vec![]), 1);
    assert_eq!(find_optimal_k(1, 10, &vec![]), 1);
}

#[test]
fn choose_k_with_two_points_is_two() {
    assert_eq!(elbow_sweep_top(2, 10), Some(2));
    assert_eq!(find_optimal_k(2, 10, &vec![1234]), 2);
    assert_eq!(find_optimal_k(2, 10, &vec![u64::MAX]), 2);
}

#[test]
fn choose_k_with_small_bound_returns_bound() {
    assert_eq!(elbow_sweep_top(5, 1), None);
    assert_eq!(find_optimal_k(5, 1, &vec![]), 1);
    assert_eq!(find_optimal_k(5, 0, &vec![]), 1);
}

#[test]
fn choose_k_picks_the_elbow() {
    assert_eq!(elbow_sweep_top(8, 5), Some(5));
    // Distances from the chord: 0, 105, 60, 0.
    assert_eq!(knee_index(&vec![100, 40, 30, 25]), 1);
    assert_eq!(find_optimal_k(8, 5, &vec![100, 40, 30, 25]), 3);
}

#[test]
fn choose_k_ties_favor_the_first() {
    // A straight line: every point lies on the chord.
    assert_eq!(find_optimal_k(6, 5, &vec![40, 30, 20, 10]), 2);
    // Symmetric bulge: points 1 and 2 are equally far.
    assert_eq!(knee_index(&vec![30, 10, 10, 30]), 1);
}

#[test]
fn no_objects_is_an_input_error() {
    assert_eq!(require_objects(0, 3), Err(AnalysisError::InputError));
    assert_eq!(require_objects(2, 3), Err(AnalysisError::InputError));
    assert_eq!(require_objects(3, 3), Ok(()));
}

#[test]
fn requested_cluster_count_is_clamped() {
    assert_eq!(requested_clusters(5, 0), None);
    assert_eq!(requested_clusters(5, 3), Some(3));
    assert_eq!(requested_clusters(5, 9), Some(5));
    assert_eq!(requested_clusters(3, 1), Some(1));
}

#[test]
fn preview_choices() {
    assert_eq!(preview_centers(0, 2), Err(AnalysisError::InputError));
    assert_eq!(preview_centers(1, 3), Err(AnalysisError::InputError));
    assert_eq!(preview_centers(4, 1), Ok(PreviewCenters::Mean));
    assert_eq!(preview_centers(4, 3), Ok(PreviewCenters::Clusters(3)));
    assert_eq!(preview_centers(4, 7), Ok(PreviewCenters::Clusters(4)));
    assert_eq!(preview_centers(4, 0), Ok(PreviewCenters::Nothing));
}

#[test]
fn mean_point_rounds_down() {
    let pts = vec![FixedPoint { x: 0, y: 0 }, FixedPoint { x: 3, y: 3 }];
    assert_eq!(mean_point(&pts), FixedPoint { x: 1, y: 1 });
    let pts = vec![FixedPoint { x: -1, y: 7 }, FixedPoint { x: 0, y: 8 }];
    assert_eq!(mean_point(&pts), FixedPoint { x: -1, y: 7 });
    let pts = vec![FixedPoint { x: i64::MAX, y: i64::MIN }, FixedPoint { x: i64::MAX, y: i64::MIN }];
    assert_eq!(mean_point(&pts), FixedPoint { x: i64::MAX, y: i64::MIN });
}

#[test]
fn cluster_centers_must_number_k() {
    let c = vec![FixedPoint { x: 1, y: 2 }, FixedPoint { x: 3, y: 4 }];
    assert_eq!(accept_centers(2, c.clone()), Ok(c.clone()));
    assert_eq!(accept_centers(3, c), Err(AnalysisError::ClusteringError));
}

#[test]
fn resize_keeps_aspect_ratio() {
    assert_eq!(smart_resize(800, 600, 1024), None);
    assert_eq!(smart_resize(1024, 1024, 1024), None);
    assert_eq!(smart_resize(2048, 1024, 1024), Some((1024, 512)));
    assert_eq!(smart_resize(1000, 3000, 1024), Some((341, 1024)));
    assert_eq!(smart_resize(2000, 2000, 1024), Some((1024, 1024)));
}
