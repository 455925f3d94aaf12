//! Roguelike utilities: integer grids, field of vision, map generation,
//! vaults and an event queue.

pub mod grid;
pub mod events;
pub mod vault;
pub mod fov;
pub mod mapgen;
