//! Counts self-avoiding lattice paths between opposite corners of a square grid.
//!
//! The grid of size `n` has the cells `(x, y)` with `0 <= x, y <= n`. A path starts at
//! the origin `(0, 0)`, moves one unit at a time along an axis, never enters a cell twice,
//! and ends at the goal `(n, n)`.
pub mod grid;
pub mod laws;
pub mod paths;
pub mod point;
pub mod route;
pub mod search;

pub use point::Point;
pub use route::Route;
pub use search::count_paths;
