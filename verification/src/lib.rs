//! An in-memory collection of fixed-dimension vectors with a layered
//! proximity graph for approximate nearest-neighbour queries.
//!
//! Vector components, distances and thresholds are IEEE 754 single-precision
//! values held as their 32-bit patterns; the arithmetic of a distance kernel
//! is supplied by the caller as a function on such patterns.

pub mod bits;
pub mod collection;
pub mod dedup;
pub mod distance;
pub mod err;
pub mod graph;
pub mod layers;
pub mod metadata;
pub mod model;
pub mod node;
pub mod prelude;
pub mod random;
pub mod results;
pub mod search;
pub mod snapshot;
pub mod vector;
