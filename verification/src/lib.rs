//! A grid pathfinding library: it maps world coordinates onto a discrete tile
//! grid, models the grid as a weighted traversal graph derived from per-tile
//! movement cost, and computes shortest-cost paths between tiles with a
//! best-first search under an admissible heuristic.

pub mod camera;
pub mod components;
pub mod cursor;
pub mod graph;
pub mod grid;
pub mod mapper;
pub mod pathfinding;
pub mod paths;
pub mod terrain;
pub mod unit;
pub mod worker;
