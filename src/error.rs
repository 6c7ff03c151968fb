//! The failures that the analysis reports to its caller.
use vstd::prelude::*;

verus! {

/// Why an analysis could not produce a result.
#[derive(Clone, Copy, Debug, PartialEq, Eq, Structural)]
pub enum AnalysisError {
    /// Too few objects were detected for the requested analysis.
    InputError,
    /// The raster is unsuitable for contour tracing or centroid computation.
    GeometryError,
    /// The k-means fit did not produce a usable set of cluster centers.
    ClusteringError,
}

} // verus!
