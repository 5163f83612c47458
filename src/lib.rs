//! Robust model fitting (RANSAC planes and lines) and radius-based cluster
//! extraction over point clouds with integer (fixed-point) coordinates.
//!
//! Every distance test is carried out exactly, on squared quantities, so a
//! degenerate hypothesis (a zero normal or a zero direction) fails every
//! inlier test by the comparison itself. Coordinates are limited to
//! `point_cloud::COORD_LIMIT` (2^19 units) in magnitude: within that range
//! every squared residual and squared norm the tests form fits in 128 bits.
pub mod point_cloud;
pub mod geometry;
pub mod segmentation;
pub mod sampling;
pub mod kdtree;
pub mod cluster_extraction;
pub mod las_writer;
