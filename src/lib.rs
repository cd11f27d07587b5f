//! A dynamic bounding-volume hierarchy over two-dimensional axis-aligned boxes.
//!
//! Coordinates are integers; a box's cost is its perimeter.

pub mod aabb;
pub mod tree;
pub mod input;
