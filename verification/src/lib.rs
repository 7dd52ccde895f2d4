//! A Parabel-style extreme multi-label classifier core: a forest of
//! probabilistic label trees built by balanced 2-means clustering of label
//! centroids, queried by beam search.
//!
//! All real-valued quantities are carried in fixed-point arithmetic: an `i64`
//! holds a real number scaled by `fixed::SCALE`, so every kernel is exact
//! integer computation with a provable contract.

pub mod aggregate;
pub mod centroid;
pub mod cluster;
pub mod codec;
pub mod config;
pub mod fixed;
pub mod model;
pub mod sparse;
pub mod train;
