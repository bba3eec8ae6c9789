//! A layout grid for physical display monitors.
//!
//! A set of monitors, each a named rectangle in absolute pixel coordinates,
//! is arranged into a dense two-dimensional grid of optional cells. The grid
//! can grow or shrink an empty one-cell border, move the contents of one cell
//! into another, and finally recompute absolute coordinates for every
//! occupied cell.

pub mod grid_model;
pub mod laws;
pub mod screen_grid;
