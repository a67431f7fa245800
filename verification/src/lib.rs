//! A moving quadrilateral tracker: a motion engine that advances four
//! labelled corner points under a velocity and a bounded random jitter,
//! a wire codec that serializes the corners to a comma-separated decimal
//! record and decodes such records, and a consumer-side geometry step
//! that reconstructs the quadrilateral's center and heading.
//!
//! Coordinates are fixed-point: signed counts of thousandths of a unit.

pub mod geometry;
pub mod motion;
pub mod wire;
