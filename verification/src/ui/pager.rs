//! Scrollable text pager with keyboard and mouse support.
use vstd::prelude::*;

use crate::cell::Cell;
use crate::geom::{Point, Range, rg, min_int, max_int};
use crate::grid::Grid;
use crate::messages::{Key, MouseAction, Msg};
use crate::style::Style;
use crate::ui::box_::{BoxDecor, box_inner, box_texts_ok};
use crate::ui::keys::key_in;
use crate::ui::styled_text::{StyledText, lemma_cells_within_size, lemma_size_small, lemma_wrapped_len, lemma_lines_count, lemma_line_len};

verus! {

/// Columns scrolled by a left or right key.
pub const SCROLL_STEP_X: i32 = 8;

/// Key bindings of a pager.
#[derive(Debug, Clone)]
pub struct PagerKeys {
    pub up: Vec<Key>,
    pub down: Vec<Key>,
    pub left: Vec<Key>,
    pub right: Vec<Key>,
    /// Keys that reset the horizontal scroll.
    pub start: Vec<Key>,
    pub page_up: Vec<Key>,
    pub page_down: Vec<Key>,
    pub half_page_up: Vec<Key>,
    pub half_page_down: Vec<Key>,
    pub top: Vec<Key>,
    pub bottom: Vec<Key>,
    pub quit: Vec<Key>,
}

impl Default for PagerKeys {
    fn default() -> (k: PagerKeys)
        ensures
            k.up@ == seq![Key::ArrowUp, Key::Char('k')],
            k.down@ == seq![Key::ArrowDown, Key::Char('j')],
            k.left@ == seq![Key::ArrowLeft, Key::Char('h')],
            k.right@ == seq![Key::ArrowRight, Key::Char('l')],
            k.start@ == seq![Key::Char('^'), Key::Char('0')],
            k.page_up@ == seq![Key::PageUp, Key::Char('b')],
            k.page_down@ == seq![Key::PageDown, Key::Char('f')],
            k.half_page_up@ == seq![Key::Char('u')],
            k.half_page_down@ == seq![Key::Char('d')],
            k.top@ == seq![Key::Home, Key::Char('g')],
            k.bottom@ == seq![Key::End, Key::Char('G')],
            k.quit@ == seq![Key::Escape, Key::Char('q')],
    {
        PagerKeys {
            up: vec![Key::ArrowUp, Key::Char('k')],
            down: vec![Key::ArrowDown, Key::Char('j')],
            left: vec![Key::ArrowLeft, Key::Char('h')],
            right: vec![Key::ArrowRight, Key::Char('l')],
            start: vec![Key::Char('^'), Key::Char('0')],
            page_up: vec![Key::PageUp, Key::Char('b')],
            page_down: vec![Key::PageDown, Key::Char('f')],
            half_page_up: vec![Key::Char('u')],
            half_page_down: vec![Key::Char('d')],
            top: vec![Key::Home, Key::Char('g')],
            bottom: vec![Key::End, Key::Char('G')],
            quit: vec![Key::Escape, Key::Char('q')],
        }
    }
}

/// Visual style of a pager.
#[derive(Debug, Clone, Copy, PartialEq, Eq, Structural)]
pub struct PagerStyle {
    /// Style of the page number indicator.
    pub page_num: Style,
}

impl Default for PagerStyle {
    fn default() -> (s: PagerStyle)
        ensures
            s.page_num == Style::spec_default(),
    {
        PagerStyle { page_num: Style::new() }
    }
}

/// Configuration of a [`Pager`].
#[derive(Clone)]
pub struct PagerConfig {
    pub content: StyledText,
    pub grid: Grid,
    pub keys: PagerKeys,
    pub box_: Option<BoxDecor>,
    pub style: PagerStyle,
}

/// Actions returned by [`Pager::update`].
#[derive(Debug, Clone, Copy, PartialEq, Eq, Structural, Hash)]
pub enum PagerAction {
    /// Nothing of note.
    Pass,
    /// The scroll position changed.
    Scroll,
    /// The pager should close.
    Quit,
}

/// The most lines a pager holds.
pub open spec fn pager_max_lines() -> int {
    0x0800_0000
}

/// Scrolling down by `shift` lines from `sy` with `nl` visible lines out
/// of `len`: no further than showing the last line. Gives the new
/// position and whether it moved.
pub open spec fn scroll_down(sy: int, shift: int, nl: int, len: int) -> (int, bool) {
    let s = if sy + nl + shift - 1 >= len { len - sy - nl } else { shift };
    if s > 0 { (sy + s, true) } else { (sy, false) }
}

/// Scrolling up by `shift` lines from `sy`: no further than the top.
pub open spec fn scroll_up(sy: int, shift: int) -> (int, bool) {
    let s = if sy - shift < 0 { sy } else { shift };
    if s > 0 { (sy - s, true) } else { (sy, false) }
}

/// A scrollable text pager.
#[derive(Clone)]
pub struct Pager {
    lines: Vec<StyledText>,
    grid: Grid,
    keys: PagerKeys,
    box_: Option<BoxDecor>,
    style: PagerStyle,
    scroll_y: i32,
    scroll_x: i32,
    action: PagerAction,
}

impl Pager {
    /// The number of lines.
    pub closed spec fn spec_len(&self) -> int {
        self.lines@.len() as int
    }

    /// The line shown at the top.
    pub closed spec fn spec_scroll_y(&self) -> int {
        self.scroll_y as int
    }

    /// The first column shown.
    pub closed spec fn spec_scroll_x(&self) -> int {
        self.scroll_x as int
    }

    /// The last action.
    pub closed spec fn spec_action(&self) -> PagerAction {
        self.action
    }

    /// The bounds of the pager's grid.
    pub closed spec fn spec_bounds(&self) -> Range {
        self.grid@
    }

    /// Whether the pager has a box.
    pub closed spec fn boxed(&self) -> bool {
        self.box_ is Some
    }

    /// The key bindings.
    pub closed spec fn spec_keys(&self) -> PagerKeys {
        self.keys
    }

    /// The height used: the grid's, no more than the lines and the border
    /// need; and the border's height.
    pub open spec fn spec_height(&self) -> (int, int) {
        let bh = if self.boxed() { 2int } else { 0int };
        let gh = self.spec_bounds().spec_height();
        (if gh > bh + self.spec_len() { bh + self.spec_len() } else { gh }, bh)
    }

    /// The number of lines shown.
    pub open spec fn spec_visible(&self) -> int {
        self.spec_height().0 - self.spec_height().1
    }

    /// Whether `msg` makes the pager quit.
    pub open spec fn quits_on(&self, msg: Msg) -> bool {
        pager_quits(
            self.spec_keys(),
            msg,
            self.spec_scroll_y(),
            self.spec_scroll_x(),
            self.spec_visible(),
            self.spec_len(),
            self.spec_bounds().spec_width(),
            self.spec_height().0,
            self.spec_bounds().min.y as int,
        )
    }

    /// The counters stay well inside `i32`.
    pub closed spec fn wf(&self) -> bool {
        &&& self.lines@.len() <= pager_max_lines()
        &&& self.grid@.spec_height() >= 0
        &&& self.grid@.spec_width() >= 0
        &&& 0 <= self.scroll_y <= 0x4000_0000
        &&& self.scroll_x >= 0
    }

    /// Create a pager: the content is word-wrapped to the grid's width less
    /// two (at least one) and split into lines; the view starts at the top
    /// left.
    pub fn new(config: PagerConfig) -> (p: Pager)
        requires
            config.content.spec_text().len() < pager_max_lines(),
            config.grid@.spec_height() >= 0,
            config.grid@.spec_width() >= 0,
        ensures
            p.wf(),
            p.spec_scroll_x() == 0,
            p.spec_scroll_y() == 0,
            p.spec_action() == PagerAction::Pass,
            p.spec_bounds() == config.grid@,
            p.boxed() == (config.box_ is Some),
            p.spec_keys() == config.keys,
            forall|reach: int| #[trigger] p.box_fits(reach) == match config.box_ {
                Some(b) => box_texts_ok(&b, reach),
                None => true,
            },
            !config.content.markup_on() ==> forall|i: int| 0 <= i < p.spec_len()
                ==> (#[trigger] p.spec_lines()[i]).spec_text().len() <= config.content.spec_text().len(),
    {
        let PagerConfig { content, grid, keys, box_, style } = config;
        let gw: i32 = grid.width();
        let width: usize = if gw > 2 { (gw - 2) as usize } else { 1 };
        let formatted = content.format(width);
        proof {
            lemma_wrapped_len(content.spec_text(), content.markup_on(), (width as i32) as int);
            lemma_lines_count(formatted.spec_text());
        }
        let lines = formatted.lines();
        proof {
            if !content.markup_on() {
                assert forall|i: int| 0 <= i < lines@.len() implies (#[trigger] lines@[i]).spec_text().len()
                    <= content.spec_text().len() by {
                    lemma_line_len(formatted.spec_text(), i);
                }
            }
        }
        Pager { lines, grid, keys, box_, style, scroll_y: 0, scroll_x: 0, action: PagerAction::Pass }
    }
}


/// What a key does to the scroll position `(sy, sx)`, in the order the
/// bindings are tried, and the action it reports.
/// Whether `msg` makes a pager with keys `k`, scrolled to (`sx`, `sy`),
/// with `nl` lines visible of `len`, `w` wide, `h` high and starting at
/// row `miny`, quit.
pub open spec fn pager_quits(k: PagerKeys, msg: Msg, sy: int, sx: int, nl: int, len: int, w: int, h: int, miny: int) -> bool {
    match msg {
        Msg::KeyDown { key, .. } => pager_key(k, key, sy, sx, nl, len).2 == PagerAction::Quit,
        Msg::Mouse { action, pos, .. } => pager_mouse(action, pos, sy, nl, len, w, h, miny).1 == PagerAction::Quit,
        _ => false,
    }
}

pub open spec fn pager_key(k: PagerKeys, key: Key, sy: int, sx: int, nl: int, len: int) -> (int, int, PagerAction) {
    let sc = |moved: bool| if moved { PagerAction::Scroll } else { PagerAction::Pass };
    if k.up@.contains(key) {
        let (y, m) = scroll_up(sy, 1);
        (y, sx, sc(m))
    } else if k.down@.contains(key) {
        let (y, m) = scroll_down(sy, 1, nl, len);
        (y, sx, sc(m))
    } else if k.left@.contains(key) {
        if sx > 0 { (sy, if sx - 8 < 0 { 0 } else { sx - 8 }, PagerAction::Scroll) } else { (sy, sx, PagerAction::Pass) }
    } else if k.right@.contains(key) {
        (sy, sx + 8, PagerAction::Scroll)
    } else if k.start@.contains(key) {
        if sx > 0 { (sy, 0, PagerAction::Scroll) } else { (sy, sx, PagerAction::Pass) }
    } else if k.page_down@.contains(key) || k.half_page_down@.contains(key) {
        let shift = if k.half_page_down@.contains(key) { crate::geom::trunc_div(nl - 1, 2) } else { nl - 1 };
        let (y, m) = scroll_down(sy, shift, nl, len);
        (y, sx, sc(m))
    } else if k.page_up@.contains(key) || k.half_page_up@.contains(key) {
        let shift = if k.half_page_up@.contains(key) { crate::geom::trunc_div(nl - 1, 2) } else { nl - 1 };
        let (y, m) = scroll_up(sy, shift);
        (y, sx, sc(m))
    } else if k.top@.contains(key) {
        if sy != 0 { (0, sx, PagerAction::Scroll) } else { (sy, sx, PagerAction::Pass) }
    } else if k.bottom@.contains(key) {
        if sy != len - nl { (len - nl, sx, PagerAction::Scroll) } else { (sy, sx, PagerAction::Pass) }
    } else if k.quit@.contains(key) {
        (sy, sx, PagerAction::Quit)
    } else {
        (sy, sx, PagerAction::Pass)
    }
}

/// What a mouse action at `pos` does to the top line `sy`: outside the
/// pager's area (`w` columns, `h` rows) a main click quits; inside, a main
/// click pages down in the lower half (row measured from `miny`) and up
/// in the upper half, and the wheel scrolls one line.
pub open spec fn pager_mouse(action: MouseAction, pos: Point, sy: int, nl: int, len: int, w: int, h: int, miny: int) -> (int, PagerAction) {
    let sc = |moved: bool| if moved { PagerAction::Scroll } else { PagerAction::Pass };
    if !(0 <= pos.x < w && 0 <= pos.y < h) {
        if action == MouseAction::Main { (sy, PagerAction::Quit) } else { (sy, PagerAction::Pass) }
    } else if action == MouseAction::Main {
        if pos.y - miny > crate::geom::trunc_div(nl, 2) {
            let (y, m) = scroll_down(sy, nl - 1, nl, len);
            (y, sc(m))
        } else {
            let (y, m) = scroll_up(sy, nl - 1);
            (y, sc(m))
        }
    } else if action == MouseAction::WheelUp {
        let (y, m) = scroll_up(sy, 1);
        (y, sc(m))
    } else if action == MouseAction::WheelDown {
        let (y, m) = scroll_down(sy, 1, nl, len);
        (y, sc(m))
    } else {
        (sy, PagerAction::Pass)
    }
}

impl Pager {
    /// The height used and the border's height.
    fn height(&self) -> (r: (i32, i32))
        requires
            self.wf(),
        ensures
            r.0 == self.spec_height().0,
            r.1 == self.spec_height().1,
            0 <= r.0 <= pager_max_lines() + 2,
    {
        let mut h: i32 = self.grid.height();
        let bh: i32 = if self.box_.is_some() { 2 } else { 0 };
        let n: i32 = self.lines.len() as i32;
        if h > bh + n {
            h = bh + n;
        }
        (h, bh)
    }

    /// The number of lines shown.
    fn visible_height(&self) -> (n: i32)
        requires
            self.wf(),
        ensures
            n == self.spec_visible(),
            -2 <= n <= pager_max_lines() + 2,
    {
        let (h, bh) = self.height();
        h - bh
    }

    fn down(&mut self, shift: i32)
        requires
            old(self).wf(),
            -0x1000_0000 <= shift <= 0x1000_0000,
        ensures
            final(self).wf(),
            final(self).scroll_y as int == scroll_down(
                old(self).scroll_y as int,
                shift as int,
                old(self).spec_visible(),
                old(self).spec_len(),
            ).0,
            scroll_down(old(self).scroll_y as int, shift as int, old(self).spec_visible(), old(self).spec_len()).1
                ==> final(self).action == PagerAction::Scroll,
            !scroll_down(old(self).scroll_y as int, shift as int, old(self).spec_visible(), old(self).spec_len()).1
                ==> final(self).action == old(self).action,
            final(self).scroll_x == old(self).scroll_x,
            final(self).lines == old(self).lines,
            final(self).grid == old(self).grid,
            final(self).box_ == old(self).box_,
            final(self).keys == old(self).keys,
    {
        let nlines: i32 = self.visible_height();
        let n: i32 = self.lines.len() as i32;
        let mut s: i32 = shift;
        if self.scroll_y + nlines + s - 1 >= n {
            s = n - self.scroll_y - nlines;
        }
        if s > 0 {
            self.action = PagerAction::Scroll;
            self.scroll_y = self.scroll_y + s;
        }
    }

    fn up(&mut self, shift: i32)
        requires
            old(self).wf(),
            -0x1000_0000 <= shift <= 0x1000_0000,
        ensures
            final(self).wf(),
            final(self).scroll_y as int == scroll_up(old(self).scroll_y as int, shift as int).0,
            scroll_up(old(self).scroll_y as int, shift as int).1 ==> final(self).action == PagerAction::Scroll,
            !scroll_up(old(self).scroll_y as int, shift as int).1 ==> final(self).action == old(self).action,
            final(self).scroll_x == old(self).scroll_x,
            final(self).lines == old(self).lines,
            final(self).grid == old(self).grid,
            final(self).box_ == old(self).box_,
            final(self).keys == old(self).keys,
    {
        let mut s: i32 = shift;
        if self.scroll_y - s < 0 {
            s = self.scroll_y;
        }
        if s > 0 {
            self.action = PagerAction::Scroll;
            self.scroll_y = self.scroll_y - s;
        }
    }
}


impl Pager {
    /// Process an input message and return the resulting action: keys as
    /// `pager_key` says, mouse actions as `pager_mouse` says, other
    /// messages do nothing.
    #[verifier::rlimit(60)]
    pub fn update(&mut self, msg: Msg) -> (a: PagerAction)
        requires
            old(self).wf(),
            msg matches Msg::KeyDown { key, .. } ==> (old(self).spec_keys().right@.contains(key)
                ==> old(self).spec_scroll_x() <= i32::MAX - 8),
        ensures
            final(self).wf(),
            a == final(self).spec_action(),
            final(self).spec_len() == old(self).spec_len(),
            final(self).spec_bounds() == old(self).spec_bounds(),
            final(self).boxed() == old(self).boxed(),
            final(self).spec_keys() == old(self).spec_keys(),
            final(self).spec_lines() == old(self).spec_lines(),
            forall|reach: int| #[trigger] final(self).box_fits(reach) == old(self).box_fits(reach),
            match msg {
                Msg::KeyDown { key, .. } => (final(self).spec_scroll_y(), final(self).spec_scroll_x(), a) == pager_key(
                    old(self).spec_keys(),
                    key,
                    old(self).spec_scroll_y(),
                    old(self).spec_scroll_x(),
                    old(self).spec_visible(),
                    old(self).spec_len(),
                ),
                Msg::Mouse { action, pos, .. } => final(self).spec_scroll_x() == old(self).spec_scroll_x() && (
                final(self).spec_scroll_y(), a) == pager_mouse(
                    action,
                    pos,
                    old(self).spec_scroll_y(),
                    old(self).spec_visible(),
                    old(self).spec_len(),
                    old(self).spec_bounds().spec_width(),
                    old(self).spec_height().0,
                    old(self).spec_bounds().min.y as int,
                ),
                _ => a == PagerAction::Pass && final(self).spec_scroll_y() == old(self).spec_scroll_y()
                    && final(self).spec_scroll_x() == old(self).spec_scroll_x(),
            },
    {
        self.action = PagerAction::Pass;
        let nlines: i32 = self.visible_height();
        match msg {
            Msg::KeyDown { key, .. } => {
                if key_in(&self.keys.up, key) {
                    self.up(1);
                } else if key_in(&self.keys.down, key) {
                    self.down(1);
                } else if key_in(&self.keys.left, key) {
                    if self.scroll_x > 0 {
                        self.action = PagerAction::Scroll;
                        self.scroll_x = if self.scroll_x - SCROLL_STEP_X < 0 { 0 } else { self.scroll_x - SCROLL_STEP_X };
                    }
                } else if key_in(&self.keys.right, key) {
                    self.action = PagerAction::Scroll;
                    self.scroll_x = self.scroll_x + SCROLL_STEP_X;
                } else if key_in(&self.keys.start, key) {
                    if self.scroll_x > 0 {
                        self.action = PagerAction::Scroll;
                        self.scroll_x = 0;
                    }
                } else if key_in(&self.keys.page_down, key) || key_in(&self.keys.half_page_down, key) {
                    let mut shift: i32 = nlines - 1;
                    if key_in(&self.keys.half_page_down, key) {
                        shift = shift / 2;
                    }
                    self.down(shift);
                } else if key_in(&self.keys.page_up, key) || key_in(&self.keys.half_page_up, key) {
                    let mut shift: i32 = nlines - 1;
                    if key_in(&self.keys.half_page_up, key) {
                        shift = shift / 2;
                    }
                    self.up(shift);
                } else if key_in(&self.keys.top, key) {
                    if self.scroll_y != 0 {
                        self.scroll_y = 0;
                        self.action = PagerAction::Scroll;
                    }
                } else if key_in(&self.keys.bottom, key) {
                    let target: i32 = self.lines.len() as i32 - nlines;
                    if self.scroll_y != target {
                        self.scroll_y = target;
                        self.action = PagerAction::Scroll;
                    }
                } else if key_in(&self.keys.quit, key) {
                    self.action = PagerAction::Quit;
                }
            },
            Msg::Mouse { action, pos, .. } => {
                let (h, bh) = self.height();
                let nlv: i32 = h - bh;
                let _b = self.grid.bounds();
                let area = self.grid.range_().lines(0, h);
                if !area.contains(pos) {
                    if action == MouseAction::Main {
                        self.action = PagerAction::Quit;
                    }
                } else {
                    match action {
                        MouseAction::Main => {
                            let rel_y: i64 = pos.y as i64 - self.grid.bounds().min.y as i64;
                            if rel_y > (nlv / 2) as i64 {
                                self.down(nlv - 1);
                            } else {
                                self.up(nlv - 1);
                            }
                        },
                        MouseAction::WheelUp => {
                            self.up(1);
                        },
                        MouseAction::WheelDown => {
                            self.down(1);
                        },
                        _ => {},
                    }
                }
            },
            _ => {},
        }
        self.action
    }

    /// The last action.
    pub fn action(&self) -> (a: PagerAction)
        ensures
            a == self.spec_action(),
    {
        self.action
    }

    /// The number of lines.
    pub fn lines(&self) -> (n: usize)
        ensures
            n == self.spec_len(),
    {
        self.lines.len()
    }

    /// Replace the lines; when the view would run past the last line, the
    /// top line moves back so that the last line ends the view (not above
    /// the first).
    pub fn set_lines(&mut self, lines: Vec<StyledText>)
        requires
            old(self).wf(),
            lines@.len() <= pager_max_lines(),
        ensures
            final(self).wf(),
            final(self).spec_len() == lines@.len(),
            final(self).spec_lines() == lines@,
            forall|reach: int| #[trigger] final(self).box_fits(reach) == old(self).box_fits(reach),
            final(self).spec_scroll_x() == old(self).spec_scroll_x(),
            final(self).spec_action() == old(self).spec_action(),
            final(self).spec_bounds() == old(self).spec_bounds(),
            final(self).boxed() == old(self).boxed(),
            final(self).spec_keys() == old(self).spec_keys(),
            old(self).spec_scroll_y() + old(self).spec_visible() - 1 >= lines@.len() ==> final(self).spec_scroll_y()
                == max_int(lines@.len() - old(self).spec_visible(), 0),
            old(self).spec_scroll_y() + old(self).spec_visible() - 1 < lines@.len() ==> final(self).spec_scroll_y()
                == old(self).spec_scroll_y(),
    {
        let nlines: i32 = self.visible_height();
        self.lines = lines;
        let n: i32 = self.lines.len() as i32;
        if self.scroll_y + nlines - 1 >= n {
            self.scroll_y = n - nlines;
            if self.scroll_y < 0 {
                self.scroll_y = 0;
            }
        }
    }

    /// Set the scroll position: `pos.x` is the first column shown (not
    /// below 0), `pos.y` the top line, moved back so that the view does not
    /// run past the last line, and not above the first.
    pub fn set_cursor(&mut self, pos: Point)
        requires
            old(self).wf(),
        ensures
            final(self).wf(),
            final(self).spec_scroll_x() == max_int(pos.x as int, 0),
            final(self).spec_scroll_y() == max_int(
                if pos.y + old(self).spec_visible() - 1 >= old(self).spec_len() {
                    old(self).spec_len() - old(self).spec_visible()
                } else {
                    pos.y as int
                },
                0,
            ),
            final(self).spec_len() == old(self).spec_len(),
            final(self).spec_action() == old(self).spec_action(),
            final(self).spec_bounds() == old(self).spec_bounds(),
            final(self).boxed() == old(self).boxed(),
            final(self).spec_keys() == old(self).spec_keys(),
    {
        self.scroll_x = if pos.x > 0 { pos.x } else { 0 };
        let nlines: i32 = self.visible_height();
        let n: i32 = self.lines.len() as i32;
        let mut y: i64 = pos.y as i64;
        if y + nlines as i64 - 1 >= n as i64 {
            y = (n - nlines) as i64;
        }
        if y < 0 {
            y = 0;
        }
        self.scroll_y = y as i32;
    }

    /// Replace the box decoration.
    pub fn set_box(&mut self, box_: Option<BoxDecor>)
        requires
            old(self).wf(),
        ensures
            final(self).wf(),
            final(self).boxed() == (box_ is Some),
            final(self).spec_len() == old(self).spec_len(),
            final(self).spec_scroll_x() == old(self).spec_scroll_x(),
            final(self).spec_scroll_y() == old(self).spec_scroll_y(),
            final(self).spec_action() == old(self).spec_action(),
            final(self).spec_bounds() == old(self).spec_bounds(),
            final(self).spec_keys() == old(self).spec_keys(),
    {
        self.box_ = box_;
    }

    /// The visible viewport: from `(scroll_x, scroll_y)`, as wide as the
    /// grid and as tall as the lines shown; the empty range at the origin
    /// when no line is shown.
    pub fn view(&self) -> (r: Range)
        requires
            self.wf(),
            self.spec_scroll_x() + self.spec_bounds().spec_width() <= i32::MAX,
        ensures
            self.spec_visible() <= 0 ==> r == rg(0, 0, 0, 0),
            self.spec_visible() > 0 ==> r == rg(
                self.spec_scroll_x(),
                self.spec_scroll_y(),
                self.spec_scroll_x() + self.spec_bounds().spec_width(),
                self.spec_scroll_y() + self.spec_visible(),
            ),
    {
        let size_x: i32 = self.grid.width();
        let (h, bh) = self.height();
        if h - bh <= 0 {
            return Range::new(0, 0, 0, 0);
        }
        Range::new(self.scroll_x, self.scroll_y, self.scroll_x + size_x, self.scroll_y + h - bh)
    }
}


impl Pager {
    /// Whether the box's texts, if any, fit a grid reaching `reach`.
    pub closed spec fn box_fits(&self, reach: int) -> bool {
        match self.box_ {
            Some(b) => box_texts_ok(&b, reach),
            None => true,
        }
    }

    /// The lines.
    pub closed spec fn spec_lines(&self) -> Seq<StyledText> {
        self.lines@
    }

    /// The scroll position: the first column and the first line shown.
    pub fn scroll(&self) -> (p: Point)
        ensures
            p.x == self.spec_scroll_x(),
            p.y == self.spec_scroll_y(),
    {
        Point::new(self.scroll_x, self.scroll_y)
    }

    /// Draw the visible part into `grid`: the box when there is one, then
    /// each row of the inner range filled with its line's base style and the
    /// line's cells shifted left by the horizontal scroll; rows past the
    /// last line are cleared.
    pub fn draw(&self, grid: &Grid)
        requires
            self.wf(),
            grid@.spec_width() >= 0,
            grid@.spec_height() >= 0,
            grid@.max.x + grid@.max.y + 4 < 0x4000_0000,
            self.spec_scroll_x() <= 0x4000_0000,
            self.box_fits(grid@.max.x + grid@.max.y),
            forall|i: int| 0 <= i < self.spec_len() ==> (#[trigger] self.spec_lines()[i]).spec_text().len() < 0x1000_0000,
    {
        let gb = grid.bounds();
        let inner = match &self.box_ {
            Some(b) => b.draw(grid),
            None => grid.range_(),
        };
        let sx: i32 = inner.min.x;
        let sy: i32 = inner.min.y;
        let vis_h: i32 = inner.max.y - inner.min.y;
        let vis_w: i32 = inner.max.x - inner.min.x;
        let mut row: i32 = 0;
        while row < vis_h
            invariant
                self.wf(),
                gb == grid@,
                gb.min.x >= 0,
                gb.min.y >= 0,
                grid@.max.x + grid@.max.y + 4 < 0x4000_0000,
                0 <= sx <= 1,
                0 <= sy <= 1,
                0 <= vis_w <= gb.spec_width(),
                0 <= vis_h <= gb.spec_height(),
                0 <= row <= vis_h,
                self.spec_scroll_x() <= 0x4000_0000,
                forall|i: int| 0 <= i < self.spec_len() ==> (#[trigger] self.spec_lines()[i]).spec_text().len()
                    < 0x1000_0000,
            decreases vis_h - row,
        {
            let line_idx: usize = self.scroll_y as usize + row as usize;
            let y: i32 = sy + row;
            if line_idx < self.lines.len() {
                let stt = &self.lines[line_idx];
                proof {
                    assert(self.spec_lines()[line_idx as int].spec_text().len() < 0x1000_0000);
                }
                let style = stt.style();
                let mut col: i32 = 0;
                while col < vis_w
                    invariant
                        gb == grid@,
                        gb.min.x >= 0,
                        gb.min.y >= 0,
                        grid@.max.x + grid@.max.y + 4 < 0x4000_0000,
                        0 <= sx <= 1,
                        0 <= y <= gb.spec_height(),
                        0 <= vis_w <= gb.spec_width(),
                        0 <= col <= vis_w,
                    decreases vis_w - col,
                {
                    let p = Point::new(sx + col, y);
                    if grid.contains(p) {
                        grid.set(p, Cell::blank().with_char(' ').with_style(style));
                    }
                    col = col + 1;
                }
                let (cells, _size) = stt.render_cells();
                proof {
                    lemma_cells_within_size(stt);
                    lemma_size_small(stt);
                }
                let mut k: usize = 0;
                while k < cells.len()
                    invariant
                        gb == grid@,
                        gb.min.x >= 0,
                        gb.min.y >= 0,
                        grid@.max.x + grid@.max.y + 4 < 0x4000_0000,
                        0 <= sx <= 1,
                        0 <= y <= gb.spec_height(),
                        0 <= vis_w <= gb.spec_width(),
                        self.spec_scroll_x() <= 0x4000_0000,
                        self.scroll_x >= 0,
                        k <= cells@.len(),
                        cells@ == stt.spec_cells(),
                        stt.spec_text().len() < 0x1000_0000,
                        forall|j: int| 0 <= j < stt.spec_cells().len() ==> {
                            let q = (#[trigger] stt.spec_cells()[j]).0;
                            0 <= q.x < stt.spec_size().x && 0 <= q.y < stt.spec_size().y
                        },
                        0 <= stt.spec_size().x <= stt.spec_text().len(),
                    decreases cells@.len() - k,
                {
                    let (p, cell) = cells[k];
                    proof {
                        assert(0 <= p.x < stt.spec_size().x);
                    }
                    let shifted_x: i32 = p.x - self.scroll_x;
                    if shifted_x >= 0 && shifted_x < vis_w {
                        let gp = Point::new(sx + shifted_x, y);
                        if grid.contains(gp) {
                            grid.set(gp, cell);
                        }
                    }
                    k = k + 1;
                }
            } else {
                let mut col: i32 = 0;
                while col < vis_w
                    invariant
                        gb == grid@,
                        gb.min.x >= 0,
                        gb.min.y >= 0,
                        grid@.max.x + grid@.max.y + 4 < 0x4000_0000,
                        0 <= sx <= 1,
                        0 <= y <= gb.spec_height(),
                        0 <= vis_w <= gb.spec_width(),
                        0 <= col <= vis_w,
                    decreases vis_w - col,
                {
                    let p = Point::new(sx + col, y);
                    if grid.contains(p) {
                        grid.set(p, Cell::blank());
                    }
                    col = col + 1;
                }
            }
            row = row + 1;
        }
    }
}

} // verus!
