//! Field of vision over the game map.
use vstd::prelude::*;

use crate::geom::Point;
use crate::rl::fov::Lighter;
use crate::rl::grid::Grid as RlGrid;
use crate::shamogu::gamemap::{terrain_at, MAX_FOV_RANGE};

verus! {

/// The lighter of the game map: walls and rubble stop light, foliage lets
/// it pass one step more, the rest costs one per step.
pub struct MapLighter<'a> {
    pub terrain: &'a RlGrid,
}

impl<'a> Lighter for MapLighter<'a> {
    /// Light stops at the walls and rubble (and outside the map, which
    /// counts as wall), foliage costs all but the last two steps of the
    /// range, other terrain one step. What lies at `to` is the grid's
    /// content, which the grid's contract does not state.
    fn cost(&self, src: Point, from: Point, to: Point) -> (c: i32)
        ensures
            c == -1 || c == MAX_FOV_RANGE - 2 || c == 1,
            !self.terrain.has(to) ==> c == -1,
    {
        match terrain_at(self.terrain, to) {
            Some(t) => if t.0 == 0 || t.0 == 3 {
                -1
            } else if t.0 == 2 {
                MAX_FOV_RANGE - 2
            } else {
                1
            },
            None => -1,
        }
    }

    /// The player's sight range.
    fn max_cost(&self, src: Point) -> (c: i32)
        ensures
            c == MAX_FOV_RANGE,
    {
        MAX_FOV_RANGE
    }
}

} // verus!
