//! Procedural generation of 2D tile maps: pipe networks, height maps and
//! room-and-corridor layouts, all built on one dense grid of cells.
pub mod common;
pub mod point;
pub mod random;
pub mod rectangle;
pub mod grid;
pub mod links;
pub mod pipegrid;
pub mod heightgrid;
pub mod roomgrid;
