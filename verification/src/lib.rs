//! A small settlement-simulation engine: a tile grid on which buildings and
//! roads are placed under resource constraints, with per-building resource
//! production on each tick and route planning between grid cells.

pub mod building;
pub mod errors;
pub mod game;
pub mod grid;
pub mod path;
pub mod resources;
