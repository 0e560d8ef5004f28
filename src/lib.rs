//! Step-by-step maze generation and pathfinding on a shared grid.

pub mod a_star;
pub mod algorithm;
pub mod app;
pub mod grid;
pub mod noise_map;
pub mod sidebar;
pub mod utils;
