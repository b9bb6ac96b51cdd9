//! Hexagonal grid routing: an axial coordinate model, a shortest-path engine
//! over pluggable caches, a waypoint-stitching route generator and a spatial
//! index for proximity queries.

pub mod enemy;
pub mod grid;
pub mod path;
pub mod player;
pub mod stats;
pub mod store;
