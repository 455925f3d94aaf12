//! The [`Cell`] type: a single character with styling.
use vstd::prelude::*;

use crate::style::{Style, Color, AttrMask};

verus! {

/// A styled character cell.
#[derive(Copy, Clone, Debug, PartialEq, Eq, Structural, Hash)]
pub struct Cell {
    pub ch: char,
    pub style: Style,
}

impl Cell {
    /// The default cell: a space in the default style.
    pub open spec fn spec_default() -> Cell {
        Cell { ch: ' ', style: Style::spec_default() }
    }

    /// Set the character (builder).
    pub fn with_char(self, ch: char) -> (c: Cell)
        ensures
            c == (Cell { ch, ..self }),
    {
        Cell { ch, ..self }
    }

    /// Set the style (builder).
    pub fn with_style(self, style: Style) -> (c: Cell)
        ensures
            c == (Cell { style, ..self }),
    {
        Cell { style, ..self }
    }

    /// A space in the default style.
    pub fn blank() -> (c: Cell)
        ensures
            c == Cell::spec_default(),
    {
        Cell { ch: ' ', style: Style { fg: Color(0), bg: Color(0), attrs: AttrMask(0) } }
    }
}

impl Default for Cell {
    fn default() -> (c: Cell)
        ensures
            c == Cell::spec_default(),
    {
        Cell::blank()
    }
}

} // verus!
