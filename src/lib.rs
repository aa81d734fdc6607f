//! Spatial heatmap aggregation and grid pathfinding over game-world coordinates.
//!
//! World positions are fixed-point integers and every intensity is an exact
//! ratio of integers, so both engines compute without rounding.

pub mod heatmap;
pub mod pathfind;

pub use heatmap::{
    aggregate, calculate_heatmap, BoundingBox, Event, GridConfig, HeatmapError, HeatmapGrid,
};
pub use pathfind::{find_path, Cell, PathError, PathGrid, PathResult};
