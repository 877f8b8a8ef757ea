//! A two-dimensional k-d tree over integer points.
pub mod laws;
pub mod nearest;
pub mod order;
pub mod tree;
