//! Marking of map cells for the graphical tile manager.
use vstd::prelude::*;

use crate::style::AttrMask;

verus! {

/// Attribute flag of a cell that is part of the game map (as opposed to
/// interface text); the tile manager draws such cells with map tiles.
#[allow(non_snake_case)]
pub fn ATTR_IN_MAP() -> (m: AttrMask)
    ensures
        m.0 == 0x100,
{
    AttrMask(0x100)
}

/// The tile manager of the game, drawing with embedded monochrome tiles.
#[derive(Debug, Clone, Copy, Default)]
pub struct ShamoguTileManager;

impl ShamoguTileManager {
    pub fn new() -> (t: ShamoguTileManager) {
        ShamoguTileManager
    }
}

} // verus!
