//! Silhouette coefficient of a labelled point set, with exact and
//! centroid-based modes, over integer (fixed-point) coordinates.

pub mod error;
pub mod metric;
pub mod centroid;
pub mod engine;
pub mod laws;
