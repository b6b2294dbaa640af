//! Bounded-hop longest-path search over an ordered set of planar points.
//!
//! Given `N` points in generation order, a table of pairwise planar
//! distances, and a hop budget `K`, the solver finds a heuristic longest
//! path that visits points in strictly increasing index order, uses at
//! most `K` edges, and obeys an elevation gate on the final budget level.

pub mod laws;
pub mod model;
pub mod solver;
