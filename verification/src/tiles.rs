//! Tile rendering support for graphical back-ends.
use vstd::prelude::*;

use crate::cell::Cell;

verus! {

/// A tile manager provides custom tile images for grid cells: monochrome
/// alpha bitmaps (one byte per pixel, 0 background, 255 foreground) that a
/// graphical back-end colours with the cell's style. `None` falls back to
/// font glyphs. Implemented by the users of the library.
pub trait TileManager {
    /// Tile size in pixels (width, height); every tile has this size.
    fn tile_size(&self) -> (usize, usize);

    /// The bitmap for the cell, of exactly width times height bytes, if a
    /// custom tile exists.
    fn get_tile(&self, cell: &Cell) -> Option<&[u8]>;
}

/// Error of making a glyph drawer for tiles.
#[derive(Debug, Clone, Copy, PartialEq, Eq, Structural)]
pub enum DrawerError {
    /// The font data could not be parsed.
    InvalidFont,
}

impl DrawerError {
    /// The message of the error.
    pub fn to_string(&self) -> (s: String)
        ensures
            s@ == "invalid font data"@,
    {
        "invalid font data".to_owned()
    }
}

} // verus!
