//! Path finding on grids: breadth-first and Dijkstra distance maps, A*,
//! jump point search and connected components.
//!
//! All searches run through a [`PathRange`], which owns and reuses the
//! caches of each algorithm.

pub mod traits;
pub mod distance;
pub mod neighbors;

pub use traits::{Pather, WeightedPather, AstarPather};
pub use neighbors::Neighbors;
pub use distance::{manhattan, chebyshev};
pub mod queue;
pub mod pathrange;
pub use pathrange::{PathRange, PathNode, UNREACHABLE};
pub mod bfs;
pub mod cc;
pub mod dijkstra;
pub mod astar;
pub mod jps;
