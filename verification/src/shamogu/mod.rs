//! Shamogu, a roguelike game on this library: terrain, entities, combat,
//! the message log, map state and colours.

pub mod terrain;
pub mod colors;
pub mod entity;
pub mod combat;
pub mod log;
pub mod fov_;
pub mod tiles;
pub mod gamemap;
pub mod game;
pub mod levelgen;
pub mod model;
