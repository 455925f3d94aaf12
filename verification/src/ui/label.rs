//! A label: styled text, optionally inside a box.
use vstd::prelude::*;

use crate::cell::Cell;
use crate::geom::{Range, rg, min_int, max_int};
use crate::grid::Grid;
use crate::ui::box_::{BoxDecor, box_texts_ok};
use crate::ui::styled_text::{StyledText, lemma_size_small};

verus! {

/// A label widget: styled text, optionally inside a box. Drawing first
/// fills the label's area with the base style, then renders the text.
#[derive(Debug, Clone)]
pub struct Label {
    /// The content to display.
    pub content: StyledText,
    /// Optional box decoration.
    pub box_: Option<BoxDecor>,
    /// Whether the drawn area shrinks to the content's width (else it takes
    /// the grid's width).
    pub adjust_width: bool,
}

/// The size of the label's area: the content's size, widened to the box
/// title, plus the border; the grid's width when the width is not
/// adjusted.
pub open spec fn label_size(l: &Label, grid_width: int) -> (int, int) {
    let cw = l.content.spec_size().x as int;
    let ch = l.content.spec_size().y as int;
    let w1 = match l.box_ {
        Some(b) => if cw < b.title.spec_size().x { b.title.spec_size().x as int } else { cw },
        None => cw,
    };
    let (w2, h2) = if l.box_ is Some { (w1 + 2, ch + 2) } else { (w1, ch) };
    (if l.adjust_width { w2 } else { grid_width }, h2)
}

/// Whether the texts of a label are short enough for drawing it on a grid
/// reaching `reach` on both axes.
pub open spec fn label_ok(l: &Label, reach: int) -> bool {
    &&& 2 * l.content.spec_text().len() + reach + 4 < i32::MAX
    &&& match l.box_ {
        Some(b) => box_texts_ok(&b, reach) && 2 * b.title.spec_text().len() + 4 < i32::MAX,
        None => true,
    }
}

impl Label {
    /// A label with the given content, no box, and width adjusted to the
    /// content.
    pub fn new(content: StyledText) -> (l: Label)
        ensures
            l.content == content,
            l.box_ is None,
            l.adjust_width,
    {
        Label { content, box_: None, adjust_width: true }
    }

    /// Set the text content, keeping the style, markups and settings.
    pub fn set_text(&mut self, text: &str)
        ensures
            final(self).content.spec_text() == text@,
            final(self).content.spec_style() == old(self).content.spec_style(),
            final(self).content.markup_on() == old(self).content.markup_on(),
            final(self).content.spec_markups() == old(self).content.spec_markups(),
            final(self).box_ == old(self).box_,
            final(self).adjust_width == old(self).adjust_width,
    {
        self.content = self.content.clone().with_text(text);
    }

    /// The range the label is drawn in: from the origin to its size.
    fn draw_range(&self, grid: &Grid) -> (r: Range)
        requires
            label_ok(self, 0),
        ensures
            ({
                let (w, h) = label_size(self, grid@.spec_width());
                r == rg(min_int(0, w), min_int(0, h), max_int(0, w), max_int(0, h))
            }),
    {
        proof {
            lemma_size_small(&self.content);
        }
        let cs = self.content.size();
        let mut w: i32 = cs.x;
        let mut h: i32 = cs.y;
        match &self.box_ {
            Some(b) => {
                proof {
                    lemma_size_small(&b.title);
                }
                let ts = b.title.size();
                if w < ts.x {
                    w = ts.x;
                }
                h = h + 2;
                w = w + 2;
            },
            None => {},
        }
        if !self.adjust_width {
            w = grid.width();
        }
        Range::new(0, 0, w, h)
    }

    /// Draw the label into the grid: the box when there is one, the content
    /// area filled with the base style, then the text. Returns the range
    /// drawn, from the origin to the label's size.
    pub fn draw(&self, grid: &Grid) -> (r: Range)
        requires
            label_ok(self, grid@.max.x + grid@.max.y),
            grid@.spec_width() >= 0,
            grid@.spec_height() >= 0,
        ensures
            ({
                let (w, h) = label_size(self, grid@.spec_width());
                r == rg(min_int(0, w), min_int(0, h), max_int(0, w), max_int(0, h))
            }),
    {
        let gb = grid.bounds();
        let draw_rg = self.draw_range(grid);
        proof {
            lemma_size_small(&self.content);
        }
        proof {
            if self.box_ is Some {
                lemma_size_small(&self.box_->0.title);
            }
            crate::grid::lemma_slice_within(gb, draw_rg);
        }
        let draw_grid = grid.slice(draw_rg);
        let db = draw_grid.bounds();
        let content_grid = match &self.box_ {
            Some(b) => {
                b.draw(&draw_grid);
                let r = draw_grid.range_();
                let inner = r.shift(1, 1, -1, -1);
                proof {
                    crate::grid::lemma_slice_within(db, inner);
                }
                draw_grid.slice(inner)
            },
            None => draw_grid.clone(),
        };
        content_grid.fill(Cell::blank().with_char(' ').with_style(self.content.style()));
        self.content.draw(&content_grid);
        draw_rg
    }
}

} // verus!
