//! Routing over a weighted, undirected graph whose nodes carry 2D
//! coordinates, with turn-by-turn guidance along the found route.
//!
//! Coordinates are fixed-point integers: the caller picks a scale (the
//! bundled loader uses 10^4 units per map unit) and every coordinate must
//! lie within [`utils::COORD_LIMIT`] units of the origin. Edge weights are
//! the Euclidean distance between the endpoints, rounded down to the same
//! fixed-point scale.

pub mod graph;
pub mod laws;
pub mod math;
pub mod search;
pub mod state;
pub mod turns;
pub mod utils;
