//! Two maze utilities: a rectangular grid maze carved by randomized
//! depth-first search, and a random node-network maze with breadth-first
//! pathfinding.

pub mod grid_maze;
pub mod network_maze;
mod rng;
