use vstd::prelude::*;

verus! {

/// The ways a silhouette computation can fail. Each is reported as a value,
/// never folded into a numeric score.
#[derive(Clone, Copy, Debug, PartialEq, Eq, Structural)]
pub enum SilhouetteError {
    /// The dataset holds no points.
    EmptyDataset,
    /// A centroid was asked of a cluster with no members.
    EmptyCluster,
    /// Two points that were compared have different lengths.
    DimensionMismatch,
    /// Every point carries the same label, so no separation can be measured.
    SingleClusterDataset,
}

} // verus!
