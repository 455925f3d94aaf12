//! Box decorations drawn around widgets.
use vstd::prelude::*;

use crate::cell::Cell;
use crate::geom::{Point, Range, rg, min_int, max_int};
use crate::grid::Grid;
use crate::style::Style;
use crate::ui::styled_text::StyledText;

verus! {

/// Alignment of a box's title and footer.
#[derive(Debug, Clone, Copy, PartialEq, Eq, Structural, Hash)]
pub enum Alignment {
    Center,
    Left,
    Right,
}

impl Default for Alignment {
    fn default() -> (a: Alignment)
        ensures
            a == Alignment::Center,
    {
        Alignment::Center
    }
}

/// Decoration for a box drawn around a widget: border style, and a title
/// and a footer drawn on the top and bottom borders.
#[derive(Debug, Clone)]
pub struct BoxDecor {
    pub style: Style,
    pub title: StyledText,
    pub footer: StyledText,
    pub align_title: Alignment,
    pub align_footer: Alignment,
}

/// Whether the texts of a box fit the arithmetic of drawing them on a grid
/// reaching `reach` on both axes.
pub open spec fn box_texts_ok(b: &BoxDecor, reach: int) -> bool {
    &&& b.title.spec_text().len() + reach < i32::MAX
    &&& b.footer.spec_text().len() + reach < i32::MAX
}

/// The inner range a box leaves in a grid of the given size: the size
/// without a one-cell border, or the whole range when it is too small.
pub open spec fn box_inner(w: int, h: int) -> Range {
    if w < 2 || h < 2 {
        rg(min_int(w, 0), min_int(h, 0), max_int(w, 0), max_int(h, 0))
    } else {
        rg(1, 1, w - 1, h - 1)
    }
}

impl BoxDecor {
    /// A box in the default style with no title and no footer, both
    /// centred.
    pub fn new() -> (b: BoxDecor)
        ensures
            b.style == Style::spec_default(),
            b.title.spec_text().len() == 0,
            b.footer.spec_text().len() == 0,
            b.align_title == Alignment::Center,
            b.align_footer == Alignment::Center,
    {
        proof {
            reveal_strlit("");
        }
        BoxDecor {
            style: Style::new(),
            title: StyledText::text(""),
            footer: StyledText::text(""),
            align_title: Alignment::Center,
            align_footer: Alignment::Center,
        }
    }

    /// Draw the border into the grid, with the title and footer when they
    /// are not empty. Returns the inner range (relative), or the grid's
    /// range when it is too small for a border.
    pub fn draw(&self, grid: &Grid) -> (r: Range)
        requires
            box_texts_ok(self, grid@.max.x + grid@.max.y),
        ensures
            r == box_inner(grid@.spec_width(), grid@.spec_height()),
    {
        let b = grid.bounds();
        let w: i32 = grid.width();
        let h: i32 = grid.height();
        if w < 2 || h < 2 {
            return grid.range_();
        }
        let s = self.style;
        set_char(grid, Point::new(0, 0), '\u{250c}', s);
        set_char(grid, Point::new(w - 1, 0), '\u{2510}', s);
        set_char(grid, Point::new(0, h - 1), '\u{2514}', s);
        set_char(grid, Point::new(w - 1, h - 1), '\u{2518}', s);
        let mut x: i32 = 1;
        while x < w - 1
            invariant
                b == grid@,
                b.dims_sym(),
                b.min.x >= 0,
                b.min.y >= 0,
                w == b.spec_width(),
                h == b.spec_height(),
                w >= 2,
                h >= 2,
                1 <= x <= w - 1,
            decreases w - 1 - x,
        {
            set_char(grid, Point::new(x, 0), '\u{2500}', s);
            set_char(grid, Point::new(x, h - 1), '\u{2500}', s);
            x = x + 1;
        }
        let mut y: i32 = 1;
        while y < h - 1
            invariant
                b == grid@,
                b.dims_sym(),
                b.min.x >= 0,
                b.min.y >= 0,
                w == b.spec_width(),
                h == b.spec_height(),
                w >= 2,
                h >= 2,
                1 <= y <= h - 1,
            decreases h - 1 - y,
        {
            set_char(grid, Point::new(0, y), '\u{2502}', s);
            set_char(grid, Point::new(w - 1, y), '\u{2502}', s);
            y = y + 1;
        }
        if self.title.content().len() != 0 {
            let top = grid.slice(Range::new(1, 0, w - 1, 1));
            draw_text_line(&self.title, &top, self.align_title);
        }
        if self.footer.content().len() != 0 {
            let bot = grid.slice(Range::new(1, h - 1, w - 1, h));
            draw_text_line(&self.footer, &bot, self.align_footer);
        }
        Range::new(1, 1, w - 1, h - 1)
    }
}

impl Default for BoxDecor {
    fn default() -> (b: BoxDecor)
        ensures
            b.style == Style::spec_default(),
            b.title.spec_text().len() == 0,
            b.footer.spec_text().len() == 0,
            b.align_title == Alignment::Center,
            b.align_footer == Alignment::Center,
    {
        BoxDecor::new()
    }
}

/// Set the cell at `p` to `ch` in `style` when `p` is inside the grid.
fn set_char(grid: &Grid, p: Point, ch: char, style: Style)
    requires
        grid.rel_fits(p),
{
    if grid.contains(p) {
        grid.set(p, Cell::blank().with_char(ch).with_style(style));
    }
}

/// Draw styled text into a one-row grid with the given alignment: shifted
/// right by the free width (left: none; right: all of it; centre: half).
fn draw_text_line(stt: &StyledText, gd: &Grid, align: Alignment)
    requires
        0 <= gd@.spec_width(),
        0 <= gd@.spec_height(),
        stt.spec_text().len() + gd@.max.x + gd@.max.y < i32::MAX,
{
    let b = gd.bounds();
    let tw: i32 = stt.size().x;
    proof {
        crate::ui::styled_text::lemma_size_small(stt);
    }
    let w: i32 = gd.width();
    let offset: i32 = match align {
        Alignment::Left => 0,
        Alignment::Right => if w - tw > 0 { w - tw } else { 0 },
        Alignment::Center => if (w - tw) / 2 > 0 { (w - tw) / 2 } else { 0 },
    };
    let shifted = gd.slice(Range::new(offset, 0, w, gd.height()));
    stt.draw(&shifted);
}

} // verus!
