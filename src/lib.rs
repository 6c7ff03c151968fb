//! Golden-spiral composition analysis over exact integer models.
//!
//! - `raster`: inverse-binary adaptive threshold, contour tracing, and the
//!   centroids of the contours that enclose an object.
//! - `geometry`: signed polygon area and area-weighted centroid.
//! - `elbow`: the number of clusters, from the knee of the inertia curve.
//! - `spiral`: fixed-point spiral parameters, the distance score of a sampled
//!   spiral against cluster centers, and the fitness of a candidate.
//! - `search`: the generational stochastic search for the best spiral.
//! - `pipeline`: the policy decisions between those steps.
//! - `error`: the failures reported to the caller.
pub mod elbow;
pub mod error;
pub mod geometry;
pub mod pipeline;
pub mod raster;
pub mod search;
pub mod spiral;
