//! A bounding-volume index over the edges of many polygons, answering nearest-edge,
//! nearest-vertex and point-in-polygon queries for batches of points.
//!
//! Coordinates are `i16` integers (callers choose the unit, e.g. a fixed-point scale),
//! so every distance is computed and compared exactly: squared distances are kept as
//! fractions of exact integers.
pub mod geometry;
pub mod polygon;
pub mod tree;
pub mod lemmas;
