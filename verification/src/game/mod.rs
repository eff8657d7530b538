//! The world: its value types, the occupancy grid, snakes, apples, the tick
//! engine and the world generators.

pub mod types;
pub mod grid;
pub mod snake;
pub mod apple;
pub mod model;
pub mod engine;
pub mod progress;
pub mod laws;
pub mod generator;
