//! A grid-based UI and roguelike toolkit: geometry, styled cells, grids,
//! path finding, field of vision and text widgets.

pub mod util;
pub mod geom;
pub mod messages;
pub mod style;
pub mod cell;
pub mod grid;
pub mod tiles;
pub mod app;
pub mod term;
pub mod recording;
pub mod paths;
pub mod rl;
pub mod ui;
pub mod shamogu;
