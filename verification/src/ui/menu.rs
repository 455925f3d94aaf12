//! Interactive menu widget with keyboard and mouse support.
//!
//! Entries are laid out in a column, a line or a table, split into pages
//! that fit the grid. Each entry gets a logical position (column, row), the
//! cells it covers and the page it is on; navigation moves between logical
//! positions and skips disabled entries.
use vstd::prelude::*;

use crate::cell::Cell;
use crate::geom::{Point, Range, pt, rg, min_int, max_int, zero_range};
use crate::grid::Grid;
use crate::messages::{Key, MouseAction, Msg};
use crate::style::{AttrMask, Color, Style};
use crate::ui::box_::{BoxDecor, box_texts_ok};
use crate::ui::keys::key_in;
use crate::ui::styled_text::{StyledText, lemma_size_small};
use crate::util::{push_decimal, string_of};
use crate::grid::lemma_slice_small;

verus! {

/// The largest entry count, grid side and entry text length a menu takes,
/// so that its layout arithmetic stays inside `i32`.
pub open spec fn menu_limit() -> int {
    0x0100_0000
}

/// The first index `i` with `start <= i < len` that satisfies `p`.
pub open spec fn first_from(len: int, p: spec_fn(int) -> bool, start: int) -> Option<int>
    decreases len - start,
{
    if start >= len {
        None
    } else if p(start) {
        Some(start)
    } else {
        first_from(len, p, start + 1)
    }
}

/// The last index `i` with `0 <= i < k` that satisfies `p`.
pub open spec fn last_below(p: spec_fn(int) -> bool, k: int) -> Option<int>
    decreases k,
{
    if k <= 0 {
        None
    } else if p(k - 1) {
        Some(k - 1)
    } else {
        last_below(p, k - 1)
    }
}

/// What `first_from` finds: the least index in range that satisfies `p`.
pub proof fn lemma_first_from(len: int, p: spec_fn(int) -> bool, start: int)
    ensures
        match first_from(len, p, start) {
            Some(i) => start <= i < len && p(i) && forall|j: int| start <= j < i ==> !#[trigger] p(j),
            None => forall|j: int| start <= j < len ==> !#[trigger] p(j),
        },
    decreases len - start,
{
    if start < len && !p(start) {
        lemma_first_from(len, p, start + 1);
    }
}

/// What `last_below` finds: the greatest index below `k` that satisfies `p`.
pub proof fn lemma_last_below(p: spec_fn(int) -> bool, k: int)
    ensures
        match last_below(p, k) {
            Some(i) => 0 <= i < k && p(i) && forall|j: int| i < j < k ==> !#[trigger] p(j),
            None => forall|j: int| 0 <= j < k ==> !#[trigger] p(j),
        },
    decreases k,
{
    if k > 0 && !p(k - 1) {
        lemma_last_below(p, k - 1);
    }
}

/// A single entry in a menu.
#[derive(Debug, Clone)]
pub struct MenuEntry {
    /// Display text.
    pub text: StyledText,
    /// Whether the entry is disabled (cannot be invoked).
    pub disabled: bool,
    /// Shortcut keys that invoke this entry.
    pub keys: Vec<Key>,
}

impl MenuEntry {
    /// An enabled entry with the given text and no shortcut keys.
    pub fn new(text: StyledText) -> (e: MenuEntry)
        ensures
            e.text == text,
            !e.disabled,
            e.keys@.len() == 0,
    {
        MenuEntry { text, disabled: false, keys: Vec::new() }
    }
}

/// Key bindings for menu navigation.
#[derive(Debug, Clone)]
pub struct MenuKeys {
    pub up: Vec<Key>,
    pub down: Vec<Key>,
    pub left: Vec<Key>,
    pub right: Vec<Key>,
    pub invoke: Vec<Key>,
    pub quit: Vec<Key>,
    pub page_up: Vec<Key>,
    pub page_down: Vec<Key>,
}

impl Default for MenuKeys {
    fn default() -> (k: MenuKeys)
        ensures
            k.up@ == seq![Key::ArrowUp, Key::Char('k')],
            k.down@ == seq![Key::ArrowDown, Key::Char('j')],
            k.left@ == seq![Key::ArrowLeft, Key::Char('h')],
            k.right@ == seq![Key::ArrowRight, Key::Char('l')],
            k.invoke@ == seq![Key::Enter],
            k.quit@ == seq![Key::Escape, Key::Char('q')],
            k.page_up@ == seq![Key::PageUp],
            k.page_down@ == seq![Key::PageDown],
    {
        MenuKeys {
            up: vec![Key::ArrowUp, Key::Char('k')],
            down: vec![Key::ArrowDown, Key::Char('j')],
            left: vec![Key::ArrowLeft, Key::Char('h')],
            right: vec![Key::ArrowRight, Key::Char('l')],
            invoke: vec![Key::Enter],
            quit: vec![Key::Escape, Key::Char('q')],
            page_up: vec![Key::PageUp],
            page_down: vec![Key::PageDown],
        }
    }
}

/// Visual style for a menu.
#[derive(Debug, Clone, Copy, PartialEq, Eq, Structural)]
pub struct MenuStyle {
    /// Layout hint (columns, rows) for arranging entries; zero or less
    /// leaves the extent free.
    pub layout: Point,
    /// Style for the active (highlighted) entry.
    pub active: Style,
    /// Style for disabled entries.
    pub disabled: Style,
    /// Style for the page number indicator.
    pub page_num: Style,
}

impl Default for MenuStyle {
    fn default() -> (s: MenuStyle)
        ensures
            s.layout == pt(1, 0),
            s.active == Style::spec_default(),
            s.disabled == Style::spec_default(),
            s.page_num == Style::spec_default(),
    {
        MenuStyle { layout: Point::new(1, 0), active: Style::new(), disabled: Style::new(), page_num: Style::new() }
    }
}

/// Configuration for a [`Menu`] widget.
#[derive(Clone)]
pub struct MenuConfig {
    /// Grid to draw into.
    pub grid: Grid,
    /// The menu entries.
    pub entries: Vec<MenuEntry>,
    /// Key bindings.
    pub keys: MenuKeys,
    /// Optional box decoration.
    pub box_: Option<BoxDecor>,
    /// Visual style.
    pub style: MenuStyle,
}

/// Actions returned by [`Menu::update`].
#[derive(Debug, Clone, Copy, PartialEq, Eq, Structural, Hash)]
pub enum MenuAction {
    /// No meaningful action occurred.
    Pass,
    /// The active entry changed.
    Move,
    /// The active entry was invoked.
    Invoke,
    /// The user requested to quit/close the menu.
    Quit,
}

/// How the entries are arranged.
#[derive(Debug, Clone, Copy, PartialEq, Eq, Structural)]
pub enum LayoutKind {
    /// One entry per row.
    Column,
    /// Entries side by side on one row, as wide as their texts.
    Line,
    /// Rows of equally wide columns, filled column by column.
    Table,
}

/// Where an entry is placed: its logical position, the cells it covers
/// (relative to the menu's grid) and its page (x-page, y-page).
#[derive(Debug, Clone, Copy)]
pub struct MenuItem {
    pub pos: Point,
    pub bounds: Range,
    pub page: Point,
}

/// The layout hint clamped to the grid's height and the entry count.
pub open spec fn menu_hint(hx: int, hy: int, gh: int, n: int) -> (int, int) {
    let y0 = if hy > gh { gh } else { hy };
    let y = if y0 > n { n } else { y0 };
    let x = if hx > n { n } else { hx };
    (x, y)
}

/// The arrangement for a clamped hint `(lx, ly)`, `n` entries and an inner
/// width `w`: the kind, the column width and the number of columns.
pub open spec fn menu_kind(lx: int, ly: int, n: int, w: int) -> (LayoutKind, int, int) {
    let lines = if ly <= 0 { n } else { ly };
    let c0 = if lx <= 0 {
        if lines == n { 1 } else { n }
    } else {
        lx
    };
    let c1 = if lines * c0 > n {
        if lines > 0 { n / lines } else { 1 }
    } else {
        c0
    };
    let columns = if c1 < 1 { 1 } else { c1 };
    if columns > 1 && lines > 1 {
        (LayoutKind::Table, w / columns, columns)
    } else if columns > 1 {
        (LayoutKind::Line, w, columns)
    } else {
        (LayoutKind::Column, w, 1)
    }
}

/// The area inside the box: origin, width and height. The height drawn is
/// the rows asked for (all entries when free) plus the border, no more than
/// the grid's.
pub open spec fn menu_inner(gw: int, gh: int, ly: int, n: int, boxed: bool) -> (int, int, int, int) {
    let h0 = if ly > 0 { ly } else { n };
    let h = if boxed { h0 + 2 } else { h0 };
    let dh = min_int(h, gh);
    if boxed {
        (1, 1, max_int(gw - 2, 0), max_int(dh - 2, 0))
    } else {
        (0, 0, gw, dh)
    }
}

/// The frame of a layout: kind, inner origin, inner width, column width
/// (at least one), page height (at least one) and columns.
pub open spec fn menu_frame(n: int, gw: int, gh: int, hint: Point, boxed: bool) -> (
    LayoutKind,
    int,
    int,
    int,
    int,
    int,
    int,
) {
    let (lx, ly) = menu_hint(hint.x as int, hint.y as int, gh, n);
    let (ix, iy, iw, ih) = menu_inner(gw, gh, ly, n, boxed);
    let (kind, colw, columns) = menu_kind(lx, ly, n, iw);
    (kind, ix, iy, iw, max_int(colw, 1), max_int(ih, 1), columns)
}

/// One step of the line layout: an entry of width `w` starts where the
/// previous one ended, or opens a new page when it would pass the inner
/// width `iw` (unless it is first on its page). Gives its start, end and
/// page.
pub open spec fn line_step(to: int, hp: int, w: int, iw: int) -> (int, int, int) {
    if to > 0 && to + w > iw {
        (0, w, hp + 1)
    } else {
        (to, to + w, hp)
    }
}

/// The end and page of the line layout after the first `k` entries.
pub open spec fn line_scan(ws: Seq<i32>, iw: int, k: int) -> (int, int)
    decreases k,
{
    if k <= 0 {
        (0, 0)
    } else {
        let (to, hp) = line_scan(ws, iw, k - 1);
        let (_f, t, p) = line_step(to, hp, ws[k - 1] as int, iw);
        (t, p)
    }
}

/// Entry `i` of a column: row `i`, wrapping to a new page every `ch` rows.
pub open spec fn column_slot(i: int, ix: int, iy: int, cw: int, ch: int) -> MenuItem {
    MenuItem { pos: pt(0, i), bounds: rg(ix, iy + i % ch, ix + cw, iy + i % ch + 1), page: pt(0, i / ch) }
}

/// Entry `i` of a line, starting at `from` and ending at `end` on x-page
/// `page`.
pub open spec fn line_slot(i: int, ix: int, iy: int, from: int, end: int, page: int) -> MenuItem {
    MenuItem { pos: pt(i, 0), bounds: rg(ix + from, iy, ix + end, iy + 1), page: pt(page, 0) }
}

/// Entry `i` of a table of `columns` columns of width `cw` and `ch` rows
/// per page, filled column by column.
pub open spec fn table_slot(i: int, ix: int, iy: int, cw: int, ch: int, columns: int) -> MenuItem {
    let per = columns * ch;
    let pg = i / per;
    let pi = i % per;
    let ln = pi % ch;
    let col = pi / ch;
    MenuItem {
        pos: pt(col, ln + pg * ch),
        bounds: rg(ix + col * cw, iy + ln, ix + (col + 1) * cw, iy + ln + 1),
        page: pt(0, pg),
    }
}

/// Where entry `i` goes, for entries of text widths `ws` in a grid of size
/// `gw` by `gh`.
pub open spec fn menu_item(ws: Seq<i32>, gw: int, gh: int, hint: Point, boxed: bool, i: int) -> MenuItem {
    let (kind, ix, iy, iw, cw, ch, columns) = menu_frame(ws.len() as int, gw, gh, hint, boxed);
    match kind {
        LayoutKind::Column => column_slot(i, ix, iy, cw, ch),
        LayoutKind::Line => {
            let (to, hp) = line_scan(ws, iw, i);
            let (from, end, page) = line_step(to, hp, ws[i] as int, iw);
            line_slot(i, ix, iy, from, end, page)
        },
        LayoutKind::Table => table_slot(i, ix, iy, cw, ch, columns),
    }
}

/// The greatest x-page and y-page of the items (zero when none).
pub open spec fn max_pages(items: Seq<MenuItem>) -> Point
    decreases items.len(),
{
    if items.len() == 0 {
        pt(0, 0)
    } else {
        let p = max_pages(items.drop_last());
        let q = items.last().page;
        pt(max_int(p.x as int, q.x as int), max_int(p.y as int, q.y as int))
    }
}

/// The text widths of the entries.
pub open spec fn menu_widths(es: Seq<MenuEntry>) -> Seq<i32> {
    Seq::new(es.len(), |i: int| es[i].text.spec_size().x)
}

/// Whether the entries fit the menu's limits.
pub open spec fn entries_ok(es: Seq<MenuEntry>) -> bool {
    &&& es.len() < menu_limit()
    &&& forall|i: int| 0 <= i < es.len() ==> (#[trigger] es[i]).text.spec_text().len() < menu_limit()
}

/// Whether the texts of a box fit the menu's limits.
pub open spec fn menu_box_ok(b: Option<BoxDecor>) -> bool {
    match b {
        Some(bd) => bd.title.spec_text().len() < menu_limit() && bd.footer.spec_text().len() < menu_limit(),
        None => true,
    }
}

/// Whether a grid fits the menu's limits.
pub open spec fn menu_grid_ok(g: Range) -> bool {
    &&& 0 <= g.min.x <= g.max.x
    &&& 0 <= g.min.y <= g.max.y
    &&& g.max.x < menu_limit()
    &&& g.max.y < menu_limit()
}

/// The parts of index `i` in a table of `columns` columns and `ch` rows per
/// page all stay within the index and the table.
proof fn lemma_table_slot(i: int, columns: int, ch: int, cw: int)
    requires
        0 <= i,
        columns >= 1,
        ch >= 1,
        cw >= 1,
    ensures
        ({
            let per = columns * ch;
            let pg = i / per;
            let pi = i % per;
            let ln = pi % ch;
            let col = pi / ch;
            &&& per >= ch
            &&& 0 <= pg <= i
            &&& 0 <= ln < ch
            &&& 0 <= col < columns
            &&& col <= i
            &&& 0 <= ln + pg * ch <= i
            &&& 0 <= col * cw
            &&& col * cw + cw == (col + 1) * cw
            &&& (col + 1) * cw <= columns * cw
        }),
{
    let per = columns * ch;
    assert(per >= ch) by (nonlinear_arith)
        requires
            columns >= 1,
            ch >= 1,
            per == columns * ch,
    ;
    let pg = i / per;
    let pi = i % per;
    vstd::arithmetic::div_mod::lemma_fundamental_div_mod(i, per);
    vstd::arithmetic::div_mod::lemma_mod_pos_bound(i, per);
    vstd::arithmetic::div_mod::lemma_div_pos_is_pos(i, per);
    vstd::arithmetic::div_mod::lemma_div_nonincreasing(i, per);
    let ln = pi % ch;
    let col = pi / ch;
    vstd::arithmetic::div_mod::lemma_fundamental_div_mod(pi, ch);
    vstd::arithmetic::div_mod::lemma_mod_pos_bound(pi, ch);
    vstd::arithmetic::div_mod::lemma_div_pos_is_pos(pi, ch);
    vstd::arithmetic::div_mod::lemma_div_nonincreasing(pi, ch);
    assert(ch * columns == per) by (nonlinear_arith)
        requires
            per == columns * ch,
    ;
    vstd::arithmetic::div_mod::lemma_multiply_divide_lt(pi, ch, columns);
    assert(0 <= ln + pg * ch <= i) by (nonlinear_arith)
        requires
            i == per * pg + pi,
            pi == ch * col + ln,
            0 <= ln,
            0 <= col,
            0 <= pg,
            per >= ch,
            ch >= 1,
    ;
    assert(0 <= col * cw && col * cw + cw == (col + 1) * cw && (col + 1) * cw <= columns * cw) by (nonlinear_arith)
        requires
            0 <= col < columns,
            cw >= 1,
    ;
}

/// The line layout never runs past the inner width or the widest entry,
/// and opens at most one page per entry.
proof fn lemma_line_scan(ws: Seq<i32>, iw: int, k: int)
    requires
        0 <= k <= ws.len(),
        iw >= 0,
        forall|j: int| 0 <= j < ws.len() ==> 0 <= #[trigger] ws[j] < menu_limit(),
    ensures
        0 <= line_scan(ws, iw, k).0 <= max_int(iw, menu_limit()),
        0 <= line_scan(ws, iw, k).1 <= max_int(k - 1, 0),
        k == 0 ==> line_scan(ws, iw, k).0 == 0,
    decreases k,
{
    if k > 0 {
        lemma_line_scan(ws, iw, k - 1);
    }
}

/// Every item lies at a position and on a page no further than its index,
/// and its cells stay well inside `i32`.
pub proof fn lemma_menu_item(ws: Seq<i32>, gw: int, gh: int, hint: Point, boxed: bool, i: int)
    requires
        0 <= i < ws.len() < menu_limit(),
        0 <= gw < menu_limit(),
        0 <= gh < menu_limit(),
        forall|j: int| 0 <= j < ws.len() ==> 0 <= #[trigger] ws[j] < menu_limit(),
    ensures
        ({
            let it = menu_item(ws, gw, gh, hint, boxed, i);
            &&& 0 <= it.pos.x <= i
            &&& 0 <= it.pos.y <= i
            &&& 0 <= it.page.x <= i
            &&& 0 <= it.page.y <= i
            &&& 0 <= it.bounds.min.x <= 4 * menu_limit()
            &&& 0 <= it.bounds.min.y <= 4 * menu_limit()
            &&& 0 <= it.bounds.max.x <= 4 * menu_limit()
            &&& 0 <= it.bounds.max.y <= 4 * menu_limit()
        }),
{
    let n = ws.len() as int;
    let (kind, ix, iy, iw, cw, ch, columns) = menu_frame(n, gw, gh, hint, boxed);
    vstd::arithmetic::div_mod::lemma_div_pos_is_pos(i, ch);
    vstd::arithmetic::div_mod::lemma_div_nonincreasing(i, ch);
    assert(ch >= 1 && iw >= 0);
    let (lx, ly) = menu_hint(hint.x as int, hint.y as int, gh, n);
    let (ix2, iy2, iw2, ih) = menu_inner(gw, gh, ly, n, boxed);
    assert(ih <= gh);
    assert(ch <= menu_limit());
    vstd::arithmetic::div_mod::lemma_mod_pos_bound(i, ch);
    match kind {
        LayoutKind::Column => {
            assert(0 <= i / ch <= i);
        },
        LayoutKind::Line => {
            lemma_line_scan(ws, iw, i);
        },
        LayoutKind::Table => {
            lemma_table_slot(i, columns, ch, cw);
            let (k2, colw, c2) = menu_kind(lx, ly, n, iw);
            if colw >= 1 {
                vstd::arithmetic::div_mod::lemma_fundamental_div_mod(iw, columns);
                vstd::arithmetic::div_mod::lemma_mod_pos_bound(iw, columns);
                assert(columns * cw <= iw) by (nonlinear_arith)
                    requires
                        iw == columns * colw + iw % columns,
                        iw % columns >= 0,
                        cw == colw,
                ;
            } else {
                assert(cw == 1);
                assert(columns * cw == columns) by (nonlinear_arith)
                    requires
                        cw == 1,
                ;
            }
        },
    }
}

/// The clamped hint and the inner area, as `menu_hint` and `menu_inner`
/// give them.
fn inner_of(n: i64, gw: i64, gh: i64, hint: Point, boxed: bool) -> (r: (i64, i64, i64, i64, i64, i64))
    requires
        0 <= n < menu_limit(),
        0 <= gw < menu_limit(),
        0 <= gh < menu_limit(),
    ensures
        (r.0 as int, r.1 as int) == menu_hint(hint.x as int, hint.y as int, gh as int, n as int),
        (r.2 as int, r.3 as int, r.4 as int, r.5 as int) == menu_inner(gw as int, gh as int, r.1 as int, n as int, boxed),
        r.0 <= n,
        r.1 <= n,
        0 <= r.2 <= 1,
        0 <= r.3 <= 1,
        0 <= r.4 <= gw,
        0 <= r.5 <= gh,
{
    let mut y: i64 = hint.y as i64;
    if y > gh {
        y = gh;
    }
    if y > n {
        y = n;
    }
    let mut x: i64 = hint.x as i64;
    if x > n {
        x = n;
    }
    let h0: i64 = if y > 0 { y } else { n };
    let h: i64 = if boxed { h0 + 2 } else { h0 };
    let dh: i64 = if h < gh { h } else { gh };
    if boxed {
        (x, y, 1, 1, if gw - 2 > 0 { gw - 2 } else { 0 }, if dh - 2 > 0 { dh - 2 } else { 0 })
    } else {
        (x, y, 0, 0, gw, if dh > 0 { dh } else { 0 })
    }
}

/// The arrangement, as `menu_kind` gives it.
fn kind_of(lx: i64, ly: i64, n: i64, iw: i64) -> (r: (LayoutKind, i64, i64))
    requires
        0 <= n < menu_limit(),
        lx <= n,
        ly <= n,
        0 <= iw < menu_limit(),
    ensures
        (r.0, r.1 as int, r.2 as int) == menu_kind(lx as int, ly as int, n as int, iw as int),
        0 <= r.1 <= iw,
        1 <= r.2 <= max_int(n as int, 1),
        r.0 == LayoutKind::Table ==> r.2 * max_int(r.1 as int, 1) <= max_int(iw as int, n as int),
{
    let lines: i64 = if ly <= 0 { n } else { ly };
    let c0: i64 = if lx <= 0 {
        if lines == n { 1 } else { n }
    } else {
        lx
    };
    assert(0 <= lines * c0 <= menu_limit() * menu_limit()) by (nonlinear_arith)
        requires
            0 <= lines <= menu_limit(),
            0 <= c0 <= menu_limit(),
    ;
    let c1: i64 = if lines * c0 > n {
        if lines > 0 { n / lines } else { 1 }
    } else {
        c0
    };
    proof {
        if lines > 0 {
            vstd::arithmetic::div_mod::lemma_div_nonincreasing(n as int, lines as int);
            vstd::arithmetic::div_mod::lemma_div_pos_is_pos(n as int, lines as int);
        }
    }
    let columns: i64 = if c1 < 1 { 1 } else { c1 };
    if columns > 1 && lines > 1 {
        let colw: i64 = iw / columns;
        proof {
            vstd::arithmetic::div_mod::lemma_div_pos_is_pos(iw as int, columns as int);
            vstd::arithmetic::div_mod::lemma_div_nonincreasing(iw as int, columns as int);
            vstd::arithmetic::div_mod::lemma_fundamental_div_mod(iw as int, columns as int);
            vstd::arithmetic::div_mod::lemma_mod_pos_bound(iw as int, columns as int);
            if colw >= 1 {
                assert(columns * colw <= iw) by (nonlinear_arith)
                    requires
                        iw == columns * colw + iw % columns,
                        iw % columns >= 0,
                ;
                assert(max_int(colw as int, 1) == colw);
            } else {
                assert(max_int(colw as int, 1) == 1);
                assert(columns * 1 == columns);
            }
        }
        (LayoutKind::Table, colw, columns)
    } else if columns > 1 {
        (LayoutKind::Line, iw, columns)
    } else {
        (LayoutKind::Column, iw, 1)
    }
}

/// The frame of a layout, as `menu_frame` gives it.
fn frame_of(n: i64, gw: i64, gh: i64, hint: Point, boxed: bool) -> (r: (LayoutKind, i64, i64, i64, i64, i64, i64))
    requires
        0 <= n < menu_limit(),
        0 <= gw < menu_limit(),
        0 <= gh < menu_limit(),
    ensures
        ({
            let f = menu_frame(n as int, gw as int, gh as int, hint, boxed);
            &&& r.0 == f.0
            &&& r.1 == f.1
            &&& r.2 == f.2
            &&& r.3 == f.3
            &&& r.4 == f.4
            &&& r.5 == f.5
            &&& r.6 == f.6
        }),
        0 <= r.1 <= 1,
        0 <= r.2 <= 1,
        0 <= r.3 <= gw,
        1 <= r.4 <= max_int(r.3 as int, 1),
        1 <= r.5 <= max_int(gh as int, 1),
        1 <= r.6 <= max_int(n as int, 1),
        r.0 == LayoutKind::Table ==> r.6 * r.4 <= max_int(r.3 as int, n as int),
{
    let (lx, ly, ix, iy, iw, ih) = inner_of(n, gw, gh, hint, boxed);
    let (kind, colw, columns) = kind_of(lx, ly, n, iw);
    let cw: i64 = if colw > 1 { colw } else { 1 };
    let ch: i64 = if ih > 1 { ih } else { 1 };
    (kind, ix, iy, iw, cw, ch, columns)
}

/// Entry `i` of a column, as `column_slot` gives it.
fn column_item(i: i64, ix: i64, iy: i64, cw: i64, ch: i64) -> (it: MenuItem)
    requires
        0 <= i < menu_limit(),
        0 <= ix <= 1,
        0 <= iy <= 1,
        1 <= cw <= menu_limit(),
        1 <= ch <= menu_limit(),
    ensures
        it == column_slot(i as int, ix as int, iy as int, cw as int, ch as int),
{
    let r: i64 = i % ch;
    let pg: i64 = i / ch;
    proof {
        vstd::arithmetic::div_mod::lemma_mod_pos_bound(i as int, ch as int);
        vstd::arithmetic::div_mod::lemma_div_pos_is_pos(i as int, ch as int);
        vstd::arithmetic::div_mod::lemma_div_nonincreasing(i as int, ch as int);
    }
    MenuItem {
        pos: Point::new(0, i as i32),
        bounds: Range::new(ix as i32, (iy + r) as i32, (ix + cw) as i32, (iy + r + 1) as i32),
        page: Point::new(0, pg as i32),
    }
}

/// Entry `i` of a table, as `table_slot` gives it.
fn table_item(i: i64, ix: i64, iy: i64, cw: i64, ch: i64, columns: i64) -> (it: MenuItem)
    requires
        0 <= i < menu_limit(),
        0 <= ix <= 1,
        0 <= iy <= 1,
        1 <= cw <= menu_limit(),
        1 <= ch <= menu_limit(),
        1 <= columns <= menu_limit(),
        columns * cw <= menu_limit(),
    ensures
        it == table_slot(i as int, ix as int, iy as int, cw as int, ch as int, columns as int),
{
    proof {
        lemma_table_slot(i as int, columns as int, ch as int, cw as int);
    }
    assert(0 <= columns * ch <= menu_limit() * menu_limit()) by (nonlinear_arith)
        requires
            1 <= columns <= menu_limit(),
            1 <= ch <= menu_limit(),
    ;
    let per: i64 = columns * ch;
    let pg: i64 = i / per;
    let pi: i64 = i % per;
    let ln: i64 = pi % ch;
    let col: i64 = pi / ch;
    MenuItem {
        pos: Point::new(col as i32, (ln + pg * ch) as i32),
        bounds: Range::new((ix + col * cw) as i32, (iy + ln) as i32, (ix + (col + 1) * cw) as i32, (iy + ln + 1) as i32),
        page: Point::new(0, pg as i32),
    }
}

/// The placement of every entry, for entries of text widths `ws`.
fn layout_items(ws: &Vec<i32>, gw: i64, gh: i64, hint: Point, boxed: bool) -> (items: Vec<MenuItem>)
    requires
        ws@.len() < menu_limit(),
        0 <= gw < menu_limit(),
        0 <= gh < menu_limit(),
        forall|j: int| 0 <= j < ws@.len() ==> 0 <= #[trigger] ws@[j] < menu_limit(),
    ensures
        items@.len() == ws@.len(),
        forall|i: int| 0 <= i < ws@.len() ==> #[trigger] items@[i] == menu_item(ws@, gw as int, gh as int, hint, boxed, i),
{
    let n: i64 = ws.len() as i64;
    let (kind, ix, iy, iw, cw, ch, columns) = frame_of(n, gw, gh, hint, boxed);
    let mut items: Vec<MenuItem> = Vec::new();
    let mut to: i64 = 0;
    let mut hp: i64 = 0;
    let mut i: usize = 0;
    while i < ws.len()
        invariant
            n == ws@.len(),
            n < menu_limit(),
            0 <= gw < menu_limit(),
            0 <= gh < menu_limit(),
            forall|j: int| 0 <= j < ws@.len() ==> 0 <= #[trigger] ws@[j] < menu_limit(),
            ({
                let f = menu_frame(n as int, gw as int, gh as int, hint, boxed);
                &&& kind == f.0
                &&& ix == f.1
                &&& iy == f.2
                &&& iw == f.3
                &&& cw == f.4
                &&& ch == f.5
                &&& columns == f.6
            }),
            0 <= ix <= 1,
            0 <= iy <= 1,
            0 <= iw <= gw,
            1 <= cw <= max_int(iw as int, 1),
            1 <= ch <= max_int(gh as int, 1),
            1 <= columns <= max_int(n as int, 1),
            kind == LayoutKind::Table ==> columns * cw <= max_int(iw as int, n as int),
            0 <= i <= ws@.len(),
            items@.len() == i,
            (to as int, hp as int) == line_scan(ws@, iw as int, i as int),
            forall|k: int| 0 <= k < i ==> #[trigger] items@[k] == menu_item(ws@, gw as int, gh as int, hint, boxed, k),
        decreases ws@.len() - i,
    {
        proof {
            lemma_line_scan(ws@, iw as int, i as int);
        }
        let w: i64 = ws[i] as i64;
        let (from, end, page): (i64, i64, i64) = if to > 0 && to + w > iw {
            (0, w, hp + 1)
        } else {
            (to, to + w, hp)
        };
        let it = match kind {
            LayoutKind::Column => column_item(i as i64, ix, iy, cw, ch),
            LayoutKind::Line => MenuItem {
                pos: Point::new(i as i32, 0),
                bounds: Range::new((ix + from) as i32, iy as i32, (ix + end) as i32, (iy + 1) as i32),
                page: Point::new(page as i32, 0),
            },
            LayoutKind::Table => table_item(i as i64, ix, iy, cw, ch, columns),
        };
        assert(it == menu_item(ws@, gw as int, gh as int, hint, boxed, i as int));
        to = end;
        hp = page;
        items.push(it);
        i = i + 1;
    }
    items
}

/// The greatest pages of the items, as `max_pages` gives them.
fn pages_of(items: &Vec<MenuItem>) -> (p: Point)
    requires
        forall|i: int| 0 <= i < items@.len() ==> 0 <= (#[trigger] items@[i]).page.x && 0 <= items@[i].page.y,
    ensures
        p == max_pages(items@),
{
    let mut p = Point::new(0, 0);
    let mut i: usize = 0;
    while i < items.len()
        invariant
            0 <= i <= items@.len(),
            forall|i: int| 0 <= i < items@.len() ==> 0 <= (#[trigger] items@[i]).page.x && 0 <= items@[i].page.y,
            p == max_pages(items@.subrange(0, i as int)),
        decreases items@.len() - i,
    {
        let q = items[i].page;
        assert(items@.subrange(0, i + 1).drop_last() =~= items@.subrange(0, i as int));
        p = Point::new(if p.x >= q.x { p.x } else { q.x }, if p.y >= q.y { p.y } else { q.y });
        i = i + 1;
    }
    assert(items@.subrange(0, items@.len() as int) =~= items@);
    p
}

/// The indices whose entry is enabled.
pub open spec fn enabled_at(es: Seq<MenuEntry>) -> spec_fn(int) -> bool {
    |i: int| !es[i].disabled
}

/// The indices whose item sits at `q`.
pub open spec fn pos_is(items: Seq<MenuItem>, q: Point) -> spec_fn(int) -> bool {
    |i: int| items[i].pos == q
}

/// The entry at logical position `q`: the first item placed there.
pub open spec fn slot_of(items: Seq<MenuItem>, q: Point) -> Option<int> {
    first_from(items.len() as int, pos_is(items, q), 0)
}

/// The position of entry `j`, the origin when there is none.
pub open spec fn pos_of(items: Seq<MenuItem>, j: int) -> Point {
    if 0 <= j < items.len() { items[j].pos } else { pt(0, 0) }
}

/// The position of the first enabled entry (of the first entry when none
/// is).
pub open spec fn first_choice(es: Seq<MenuEntry>, items: Seq<MenuItem>) -> Point {
    match first_from(es.len() as int, enabled_at(es), 0) {
        Some(j) => pos_of(items, j),
        None => pos_of(items, 0),
    }
}

/// The position of the last enabled entry (of the last entry when none
/// is).
pub open spec fn last_choice(es: Seq<MenuEntry>, items: Seq<MenuItem>) -> Point {
    match last_below(enabled_at(es), es.len() as int) {
        Some(j) => pos_of(items, j),
        None => pos_of(items, es.len() - 1),
    }
}

/// The number of enabled entries among the first `k`.
pub open spec fn count_enabled(es: Seq<MenuEntry>, k: int) -> int
    decreases k,
{
    if k <= 0 {
        0
    } else {
        count_enabled(es, k - 1) + if es[k - 1].disabled { 0int } else { 1int }
    }
}

/// An interactive menu widget.
#[derive(Clone)]
pub struct Menu {
    grid: Grid,
    entries: Vec<MenuEntry>,
    keys: MenuKeys,
    box_: Option<BoxDecor>,
    style: MenuStyle,
    /// Logical position of the active entry.
    active: Point,
    action: MenuAction,
    /// Placement of each entry, by index.
    items: Vec<MenuItem>,
    /// Greatest page numbers (x, y) over the items.
    pages: Point,
    /// The layout hint, clamped.
    layout: Point,
}

impl Menu {
    pub closed spec fn spec_entries(&self) -> Seq<MenuEntry> {
        self.entries@
    }

    pub closed spec fn spec_items(&self) -> Seq<MenuItem> {
        self.items@
    }

    pub closed spec fn spec_active(&self) -> Point {
        self.active
    }

    pub closed spec fn spec_action(&self) -> MenuAction {
        self.action
    }

    pub closed spec fn spec_pages(&self) -> Point {
        self.pages
    }

    pub closed spec fn spec_keys(&self) -> MenuKeys {
        self.keys
    }

    pub closed spec fn spec_style(&self) -> MenuStyle {
        self.style
    }

    pub closed spec fn spec_grid(&self) -> Range {
        self.grid@
    }

    pub closed spec fn boxed(&self) -> bool {
        self.box_ is Some
    }

    /// The clamped layout hint.
    pub closed spec fn spec_layout(&self) -> Point {
        self.layout
    }

    /// The items are the layout of the entries in the grid, and every
    /// quantity fits the menu's limits.
    pub closed spec fn wf(&self) -> bool {
        let n = self.entries@.len() as int;
        let gw = self.grid@.spec_width();
        let gh = self.grid@.spec_height();
        &&& entries_ok(self.entries@)
        &&& menu_grid_ok(self.grid@)
        &&& menu_box_ok(self.box_)
        &&& self.items@.len() == n
        &&& forall|i: int| 0 <= i < n ==> #[trigger] self.items@[i] == menu_item(
            menu_widths(self.entries@),
            gw,
            gh,
            self.style.layout,
            self.box_ is Some,
            i,
        )
        &&& self.pages == max_pages(self.items@)
        &&& ({
            let (lx, ly) = menu_hint(self.style.layout.x as int, self.style.layout.y as int, gh, n);
            self.layout == pt(lx, ly)
        })
        &&& 0 <= self.active.x <= menu_limit()
        &&& 0 <= self.active.y <= menu_limit()
    }

    /// The placement laws that follow from well-formedness: every item is
    /// at a position and on a page no further than its index.
    pub proof fn lemma_wf_items(&self)
        requires
            self.wf(),
        ensures
            forall|i: int| 0 <= i < self.spec_items().len() ==> {
                &&& 0 <= (#[trigger] self.spec_items()[i]).pos.x <= i
                &&& 0 <= self.spec_items()[i].pos.y <= i
                &&& 0 <= self.spec_items()[i].page.x <= i
                &&& 0 <= self.spec_items()[i].page.y <= i
                &&& 0 <= self.spec_items()[i].bounds.min.x <= 4 * menu_limit()
                &&& 0 <= self.spec_items()[i].bounds.min.y <= 4 * menu_limit()
                &&& 0 <= self.spec_items()[i].bounds.max.x <= 4 * menu_limit()
                &&& 0 <= self.spec_items()[i].bounds.max.y <= 4 * menu_limit()
            },
            self.spec_items().len() == self.spec_entries().len(),
            self.spec_entries().len() < menu_limit(),
    {
        let ws = menu_widths(self.entries@);
        assert forall|i: int| 0 <= i < self.items@.len() implies {
            &&& 0 <= (#[trigger] self.items@[i]).pos.x <= i
            &&& 0 <= self.items@[i].pos.y <= i
            &&& 0 <= self.items@[i].page.x <= i
            &&& 0 <= self.items@[i].page.y <= i
            &&& 0 <= self.items@[i].bounds.min.x <= 4 * menu_limit()
            &&& 0 <= self.items@[i].bounds.min.y <= 4 * menu_limit()
            &&& 0 <= self.items@[i].bounds.max.x <= 4 * menu_limit()
            &&& 0 <= self.items@[i].bounds.max.y <= 4 * menu_limit()
        } by {
            assert forall|j: int| 0 <= j < ws.len() implies 0 <= #[trigger] ws[j] < menu_limit() by {
                lemma_size_small(&self.entries@[j].text);
            }
            lemma_menu_item(ws, self.grid@.spec_width(), self.grid@.spec_height(), self.style.layout, self.box_ is Some, i);
        }
    }
}

/// The text widths of the entries, as `menu_widths` gives them.
fn widths_of(es: &Vec<MenuEntry>) -> (ws: Vec<i32>)
    requires
        entries_ok(es@),
    ensures
        ws@ == menu_widths(es@),
        forall|j: int| 0 <= j < ws@.len() ==> 0 <= #[trigger] ws@[j] < menu_limit(),
{
    let mut ws: Vec<i32> = Vec::new();
    let mut i: usize = 0;
    while i < es.len()
        invariant
            entries_ok(es@),
            0 <= i <= es@.len(),
            ws@.len() == i,
            forall|j: int| 0 <= j < i ==> #[trigger] ws@[j] == es@[j].text.spec_size().x,
            forall|j: int| 0 <= j < i ==> 0 <= #[trigger] ws@[j] < menu_limit(),
        decreases es@.len() - i,
    {
        assert(es@[i as int].text.spec_text().len() < menu_limit());
        proof {
            lemma_size_small(&es@[i as int].text);
        }
        let w = es[i].text.size().x;
        ws.push(w);
        i = i + 1;
    }
    assert(ws@ =~= menu_widths(es@));
    ws
}

/// The placement of the entries in a grid: items, greatest pages and the
/// clamped hint.
fn placement(es: &Vec<MenuEntry>, grid: &Grid, hint: Point, boxed: bool) -> (r: (Vec<MenuItem>, Point, Point))
    requires
        entries_ok(es@),
        menu_grid_ok(grid@),
    ensures
        r.0@.len() == es@.len(),
        forall|i: int| 0 <= i < es@.len() ==> #[trigger] r.0@[i] == menu_item(
            menu_widths(es@),
            grid@.spec_width(),
            grid@.spec_height(),
            hint,
            boxed,
            i,
        ),
        r.1 == max_pages(r.0@),
        ({
            let (lx, ly) = menu_hint(hint.x as int, hint.y as int, grid@.spec_height(), es@.len() as int);
            r.2 == pt(lx, ly)
        }),
{
    let ws = widths_of(es);
    let gw: i64 = grid.width() as i64;
    let gh: i64 = grid.height() as i64;
    let items = layout_items(&ws, gw, gh, hint, boxed);
    proof {
        assert forall|i: int| 0 <= i < items@.len() implies 0 <= (#[trigger] items@[i]).page.x && 0 <= items@[i].page.y by {
            lemma_menu_item(ws@, gw as int, gh as int, hint, boxed, i);
        }
    }
    let pages = pages_of(&items);
    let (lx, ly, _ix, _iy, _iw, _ih) = inner_of(ws.len() as i64, gw, gh, hint, boxed);
    (items, pages, Point::new(lx as i32, ly as i32))
}

/// An optional index as an integer.
pub open spec fn opt_int(r: Option<usize>) -> Option<int> {
    match r {
        Some(j) => Some(j as int),
        None => None,
    }
}

/// The first enabled entry, as `first_from` finds it.
fn first_enabled(es: &Vec<MenuEntry>) -> (r: Option<usize>)
    ensures
        opt_int(r) == first_from(es@.len() as int, enabled_at(es@), 0),
{
    let mut i: usize = 0;
    while i < es.len()
        invariant
            0 <= i <= es@.len(),
            first_from(es@.len() as int, enabled_at(es@), 0) == first_from(es@.len() as int, enabled_at(es@), i as int),
        decreases es@.len() - i,
    {
        if !es[i].disabled {
            return Some(i);
        }
        i = i + 1;
    }
    None
}

/// The last enabled entry, as `last_below` finds it.
fn last_enabled(es: &Vec<MenuEntry>) -> (r: Option<usize>)
    ensures
        opt_int(r) == last_below(enabled_at(es@), es@.len() as int),
{
    let mut k: usize = es.len();
    while k > 0
        invariant
            0 <= k <= es@.len(),
            last_below(enabled_at(es@), es@.len() as int) == last_below(enabled_at(es@), k as int),
        decreases k,
    {
        if !es[k - 1].disabled {
            return Some(k - 1);
        }
        k = k - 1;
    }
    None
}

impl Menu {
    /// The entry placed at `q`, as `slot_of` finds it.
    fn slot(&self, q: Point) -> (r: Option<usize>)
        ensures
            opt_int(r) == slot_of(self.items@, q),
    {
        let mut i: usize = 0;
        while i < self.items.len()
            invariant
                0 <= i <= self.items@.len(),
                slot_of(self.items@, q) == first_from(self.items@.len() as int, pos_is(self.items@, q), i as int),
            decreases self.items@.len() - i,
        {
            if self.items[i].pos == q {
                return Some(i);
            }
            i = i + 1;
        }
        None
    }

    /// The position of entry `j`, the origin when there is none.
    fn idx_to_pos(&self, j: usize) -> (p: Point)
        ensures
            p == pos_of(self.items@, j as int),
    {
        if j < self.items.len() {
            self.items[j].pos
        } else {
            Point::new(0, 0)
        }
    }

    /// Put the cursor on the first enabled entry.
    fn cursor_at_first_choice(&mut self)
        requires
            old(self).wf(),
        ensures
            *final(self) == (Menu { active: first_choice(old(self).entries@, old(self).items@), ..*old(self) }),
            final(self).wf(),
    {
        proof {
            self.lemma_wf_items();
        }
        let j: usize = match first_enabled(&self.entries) {
            Some(j) => j,
            None => 0,
        };
        proof {
            lemma_first_from(self.entries@.len() as int, enabled_at(self.entries@), 0);
        }
        self.active = self.idx_to_pos(j);
    }

    /// Put the cursor on the last enabled entry.
    fn cursor_at_last_choice(&mut self)
        requires
            old(self).wf(),
        ensures
            *final(self) == (Menu { active: last_choice(old(self).entries@, old(self).items@), ..*old(self) }),
            final(self).wf(),
    {
        proof {
            self.lemma_wf_items();
        }
        let j: usize = match last_enabled(&self.entries) {
            Some(j) => j,
            None => if self.entries.len() > 0 { self.entries.len() - 1 } else { 0 },
        };
        proof {
            lemma_last_below(enabled_at(self.entries@), self.entries@.len() as int);
        }
        self.active = self.idx_to_pos(j);
    }

    /// Create a menu: the entries are laid out in the grid and the cursor
    /// is on the first enabled entry.
    pub fn new(config: MenuConfig) -> (m: Menu)
        requires
            entries_ok(config.entries@),
            menu_grid_ok(config.grid@),
            menu_box_ok(config.box_),
        ensures
            m.wf(),
            m.spec_entries() == config.entries@,
            m.spec_keys() == config.keys,
            m.spec_style() == config.style,
            m.spec_grid() == config.grid@,
            m.boxed() == (config.box_ is Some),
            m.spec_action() == MenuAction::Pass,
            m.spec_active() == first_choice(m.spec_entries(), m.spec_items()),
    {
        let MenuConfig { grid, entries, keys, box_, style } = config;
        let (items, pages, layout) = placement(&entries, &grid, style.layout, box_.is_some());
        let mut m = Menu {
            grid,
            entries,
            keys,
            box_,
            style,
            active: Point::new(0, 0),
            action: MenuAction::Pass,
            items,
            pages,
            layout,
        };
        m.cursor_at_first_choice();
        m
    }
}

/// Whether `q` holds a disabled entry.
pub open spec fn blocked(es: Seq<MenuEntry>, items: Seq<MenuItem>, q: Point) -> bool {
    match slot_of(items, q) {
        Some(i) => es[i].disabled,
        None => false,
    }
}

/// Whether `d` is one of the four unit directions.
pub open spec fn is_unit(d: Point) -> bool {
    d == pt(0, 1) || d == pt(0, -1) || d == pt(1, 0) || d == pt(-1, 0)
}

/// The offset of `k` unit steps along `d`, on one axis whose direction
/// component is `c`.
pub open spec fn steps(c: int, k: int) -> int {
    if c > 0 { k } else if c < 0 { -k } else { 0 }
}

/// `k` unit steps from `q` along `d`.
pub open spec fn step(q: Point, d: Point, k: int) -> Point {
    pt(q.x + steps(d.x as int, k), q.y + steps(d.y as int, k))
}

/// How far `q` lies along `d`.
pub open spec fn along(q: Point, d: Point) -> int {
    if d.x > 0 {
        q.x as int
    } else if d.x < 0 {
        -q.x
    } else if d.y > 0 {
        q.y as int
    } else {
        -q.y
    }
}

/// Whether `k` steps from `q` along `d` is the first point, past `q`, that
/// holds no disabled entry.
pub open spec fn walk_ends(es: Seq<MenuEntry>, items: Seq<MenuItem>, q: Point, d: Point, k: int) -> bool {
    &&& k >= 1
    &&& !blocked(es, items, step(q, d, k))
    &&& forall|j: int| 1 <= j < k ==> #[trigger] blocked(es, items, step(q, d, j))
}

/// The number of steps from `q` along `d` to the first point that holds no
/// disabled entry.
pub open spec fn walk_len(es: Seq<MenuEntry>, items: Seq<MenuItem>, q: Point, d: Point) -> int {
    choose|k: int| walk_ends(es, items, q, d, k)
}

/// The items on a later y-page than `y`.
pub open spec fn page_y_after(items: Seq<MenuItem>, y: int) -> spec_fn(int) -> bool {
    |i: int| items[i].page.y > y
}

/// The items on a later x-page than `x`.
pub open spec fn page_x_after(items: Seq<MenuItem>, x: int) -> spec_fn(int) -> bool {
    |i: int| items[i].page.x > x
}

/// The items on an earlier y-page than `y`.
pub open spec fn page_y_before(items: Seq<MenuItem>, y: int) -> spec_fn(int) -> bool {
    |i: int| items[i].page.y < y
}

/// The items on an earlier x-page than `x`.
pub open spec fn page_x_before(items: Seq<MenuItem>, x: int) -> spec_fn(int) -> bool {
    |i: int| items[i].page.x < x
}

/// The entry to go to from the one at `a` when leaving its page along `d`:
/// forward, the first later entry on a later page; backward, the last
/// earlier entry on an earlier page.
pub open spec fn next_page(items: Seq<MenuItem>, a: Point, d: Point) -> Option<int> {
    match slot_of(items, a) {
        None => None,
        Some(c) => {
            let cp = items[c].page;
            let n = items.len() as int;
            if d == pt(0, 1) {
                first_from(n, page_y_after(items, cp.y as int), c + 1)
            } else if d == pt(1, 0) {
                first_from(n, page_x_after(items, cp.x as int), c + 1)
            } else if d == pt(0, -1) {
                last_below(page_y_before(items, cp.y as int), c)
            } else if d == pt(-1, 0) {
                last_below(page_x_before(items, cp.x as int), c)
            } else {
                None
            }
        },
    }
}

/// Where a move along `d` from `a` lands: the first point along `d` that
/// holds no disabled entry, when it holds an entry; else the next page's
/// entry; else the first (forward) or last (backward) choice.
pub open spec fn moved(es: Seq<MenuEntry>, items: Seq<MenuItem>, a: Point, d: Point) -> Point {
    let q = step(a, d, walk_len(es, items, a, d));
    if slot_of(items, q) is Some {
        q
    } else {
        match next_page(items, a, d) {
            Some(j) => items[j].pos,
            None => if d == pt(0, 1) || d == pt(1, 0) {
                first_choice(es, items)
            } else {
                last_choice(es, items)
            },
        }
    }
}

impl Menu {
    /// The entry to go to when leaving the active entry's page along `d`.
    fn find_next_page(&self, d: Point) -> (r: Option<usize>)
        ensures
            opt_int(r) == next_page(self.items@, self.active, d),
    {
        let c: usize = match self.slot(self.active) {
            Some(c) => c,
            None => {
                return None;
            },
        };
        proof {
            lemma_first_from(self.items@.len() as int, pos_is(self.items@, self.active), 0);
        }
        let cp = self.items[c].page;
        let n: usize = self.items.len();
        if d.x == 0 && d.y == 1 || d.x == 1 && d.y == 0 {
            let ghost p = if d.y == 1 { page_y_after(self.items@, cp.y as int) } else { page_x_after(self.items@, cp.x as int) };
            let mut i: usize = c + 1;
            while i < n
                invariant
                    n == self.items@.len(),
                    c < n,
                    c + 1 <= i <= n,
                    slot_of(self.items@, self.active) == Some(c as int),
                    cp == self.items@[c as int].page,
                    d.x == 0 && d.y == 1 || d.x == 1 && d.y == 0,
                    first_from(n as int, p, c + 1) == first_from(n as int, p, i as int),
                    p == if d.y == 1 { page_y_after(self.items@, cp.y as int) } else { page_x_after(self.items@, cp.x as int) },
                decreases n - i,
            {
                let pg = self.items[i].page;
                if (d.y == 1 && pg.y > cp.y) || (d.y != 1 && pg.x > cp.x) {
                    assert(p(i as int));
                    assert(first_from(n as int, p, i as int) == Some(i as int));
                    return Some(i);
                }
                assert(!p(i as int));
                i = i + 1;
            }
            None
        } else if d.x == 0 && d.y == -1 || d.x == -1 && d.y == 0 {
            let ghost p = if d.y == -1 { page_y_before(self.items@, cp.y as int) } else { page_x_before(self.items@, cp.x as int) };
            let mut k: usize = c;
            while k > 0
                invariant
                    n == self.items@.len(),
                    c < n,
                    0 <= k <= c,
                    slot_of(self.items@, self.active) == Some(c as int),
                    cp == self.items@[c as int].page,
                    d.x == 0 && d.y == -1 || d.x == -1 && d.y == 0,
                    last_below(p, c as int) == last_below(p, k as int),
                    p == if d.y == -1 { page_y_before(self.items@, cp.y as int) } else { page_x_before(self.items@, cp.x as int) },
                decreases k,
            {
                let pg = self.items[k - 1].page;
                if (d.y == -1 && pg.y < cp.y) || (d.y != -1 && pg.x < cp.x) {
                    assert(p(k - 1));
                    assert(last_below(p, k as int) == Some(k - 1));
                    return Some(k - 1);
                }
                assert(!p(k - 1));
                k = k - 1;
            }
            None
        } else {
            None
        }
    }
}

/// The items on page `pg`.
pub open spec fn page_is(items: Seq<MenuItem>, pg: Point) -> spec_fn(int) -> bool {
    |i: int| items[i].page == pg
}

/// Where paging down from `a` lands: the first entry of the next page
/// (y-pages when there are several, else x-pages), if there is one.
pub open spec fn paged_down(items: Seq<MenuItem>, pages: Point, a: Point) -> Option<Point> {
    let d = if pages.y > 0 { pt(0, 1) } else { pt(1, 0) };
    match next_page(items, a, d) {
        Some(j) => Some(items[j].pos),
        None => None,
    }
}

/// Where paging up from `a` lands: the first entry of the previous page,
/// if there is one.
pub open spec fn paged_up(items: Seq<MenuItem>, pages: Point, a: Point) -> Option<Point> {
    let d = if pages.y > 0 { pt(0, -1) } else { pt(-1, 0) };
    match next_page(items, a, d) {
        Some(j) => match first_from(items.len() as int, page_is(items, items[j].page), 0) {
            Some(f) => Some(items[f].pos),
            None => Some(items[j].pos),
        },
        None => None,
    }
}

impl Menu {
    /// Move along `d`, skipping disabled entries, to another page or round
    /// to the other end when there is no entry further.
    fn move_to(&mut self, d: Point)
        requires
            old(self).wf(),
            is_unit(d),
        ensures
            final(self).wf(),
            ({
                let a = moved(old(self).entries@, old(self).items@, old(self).active, d);
                *final(self) == (Menu {
                    active: a,
                    action: if a != old(self).active { MenuAction::Move } else { old(self).action },
                    ..*old(self)
                })
            }),
    {
        proof {
            self.lemma_wf_items();
        }
        let ghost es = self.entries@;
        let ghost its = self.items@;
        let old_active = self.active;
        let mut q = self.active;
        let ghost mut k: int = 0;
        loop
            invariant_except_break
                k >= 0,
                q == step(old_active, d, k),
                q.x == old_active.x + steps(d.x as int, k),
                q.y == old_active.y + steps(d.y as int, k),
                0 <= q.x <= menu_limit(),
                0 <= q.y <= menu_limit(),
                forall|j: int| 1 <= j <= k ==> #[trigger] blocked(es, its, step(old_active, d, j)),
            invariant
                self.wf(),
                es == self.entries@,
                its == self.items@,
                old_active == self.active,
                is_unit(d),
                forall|i: int| 0 <= i < its.len() ==> {
                    &&& 0 <= (#[trigger] its[i]).pos.x <= i
                    &&& 0 <= its[i].pos.y <= i
                },
                its.len() < menu_limit(),
            ensures
                k >= 1,
                q == step(old_active, d, k),
                walk_ends(es, its, old_active, d, k),
            decreases menu_limit() + 1 - along(q, d),
        {
            let ghost q0 = q;
            q = Point::new(q.x + d.x, q.y + d.y);
            proof {
                k = k + 1;
                assert(q.x == old_active.x + steps(d.x as int, k));
                assert(q.y == old_active.y + steps(d.y as int, k));
            }
            match self.slot(q) {
                None => {
                    break;
                },
                Some(i) => {
                    proof {
                        lemma_first_from(its.len() as int, pos_is(its, q), 0);
                    }
                    if !self.entries[i].disabled {
                        break;
                    }
                    proof {
                        assert(blocked(es, its, step(old_active, d, k)));
                    }
                },
            }
        }
        proof {
            let kk = walk_len(es, its, old_active, d);
            assert(walk_ends(es, its, old_active, d, kk));
            if kk < k {
                assert(blocked(es, its, step(old_active, d, kk)));
            }
            if kk > k {
                assert(blocked(es, its, step(old_active, d, k)));
            }
            assert(kk == k);
        }
        if self.slot(q).is_some() {
            proof {
                lemma_first_from(its.len() as int, pos_is(its, q), 0);
            }
            self.active = q;
        } else {
            match self.find_next_page(d) {
                Some(j) => {
                    proof {
                        lemma_first_from(its.len() as int, pos_is(its, old_active), 0);
                    }
                    assert(next_page(its, old_active, d) == Some(j as int));
                    assert(j < its.len()) by {
                        let c = slot_of(its, old_active)->0;
                        let cp = its[c].page;
                        if d == pt(0, 1) {
                            lemma_first_from(its.len() as int, page_y_after(its, cp.y as int), c + 1);
                        } else if d == pt(1, 0) {
                            lemma_first_from(its.len() as int, page_x_after(its, cp.x as int), c + 1);
                        } else if d == pt(0, -1) {
                            lemma_last_below(page_y_before(its, cp.y as int), c);
                        } else {
                            lemma_last_below(page_x_before(its, cp.x as int), c);
                        }
                    }
                    self.active = self.items[j].pos;
                },
                None => {
                    if (d.x == 0 && d.y == 1) || (d.x == 1 && d.y == 0) {
                        self.cursor_at_first_choice();
                    } else {
                        self.cursor_at_last_choice();
                    }
                },
            }
        }
        if self.active != old_active {
            self.action = MenuAction::Move;
        }
    }
}

/// The union of the cells of the first `k` items on page `cp`.
pub open spec fn page_union(items: Seq<MenuItem>, cp: Point, k: int) -> Range
    decreases k,
{
    if k <= 0 {
        zero_range()
    } else {
        let u = page_union(items, cp, k - 1);
        if items[k - 1].page == cp { u.spec_union(items[k - 1].bounds) } else { u }
    }
}

/// The number of the first `k` items that are on page `cp` in the first
/// column.
pub open spec fn page_rows(items: Seq<MenuItem>, cp: Point, k: int) -> int
    decreases k,
{
    if k <= 0 {
        0
    } else {
        page_rows(items, cp, k - 1) + if items[k - 1].pos.x <= 0 && items[k - 1].page == cp { 1int } else { 0int }
    }
}

/// The page of the entry at `a`, the first page when there is none.
pub open spec fn cur_page(items: Seq<MenuItem>, a: Point) -> Point {
    match slot_of(items, a) {
        Some(i) => items[i].page,
        None => pt(0, 0),
    }
}

/// The part of the grid the menu uses on page `cp`, box included: with a
/// row limit and free columns, the cells of the page's entries (and the
/// border around them); otherwise the grid's width by the page's rows
/// (and the border).
pub open spec fn page_range(items: Seq<MenuItem>, layout: Point, boxed: bool, gw: int, cp: Point) -> Range {
    let n = items.len() as int;
    if layout.y > 0 && layout.x == 0 {
        let u = page_union(items, cp, n);
        if boxed { u.spec_shift(-1, -1, 1, 1) } else { u }
    } else {
        rg(0, 0, gw, page_rows(items, cp, n) + if boxed { 2int } else { 0int })
    }
}

/// The part of `outer` inside the box.
pub open spec fn content_of(outer: Range, boxed: bool) -> Range {
    if boxed { outer.spec_shift(1, 1, -1, -1) } else { outer }
}

/// The items on page `cp` whose cells hold `p`.
pub open spec fn hit(items: Seq<MenuItem>, cp: Point, p: Point) -> spec_fn(int) -> bool {
    |i: int| items[i].page == cp && items[i].bounds.spec_contains(p)
}

/// The entry under `p` on the active page.
pub open spec fn pointed(items: Seq<MenuItem>, a: Point, p: Point) -> Option<int> {
    first_from(items.len() as int, hit(items, cur_page(items, a), p), 0)
}

/// The union stays inside the square the items' cells lie in.
proof fn lemma_page_union(items: Seq<MenuItem>, cp: Point, k: int)
    requires
        0 <= k <= items.len(),
        forall|i: int| 0 <= i < items.len() ==> {
            &&& 0 <= (#[trigger] items[i]).bounds.min.x <= 4 * menu_limit()
            &&& 0 <= items[i].bounds.min.y <= 4 * menu_limit()
            &&& 0 <= items[i].bounds.max.x <= 4 * menu_limit()
            &&& 0 <= items[i].bounds.max.y <= 4 * menu_limit()
        },
    ensures
        0 <= page_union(items, cp, k).min.x <= 4 * menu_limit(),
        0 <= page_union(items, cp, k).min.y <= 4 * menu_limit(),
        0 <= page_union(items, cp, k).max.x <= 4 * menu_limit(),
        0 <= page_union(items, cp, k).max.y <= 4 * menu_limit(),
    decreases k,
{
    if k > 0 {
        lemma_page_union(items, cp, k - 1);
    }
}

/// The row count never passes the number of items counted.
proof fn lemma_page_rows(items: Seq<MenuItem>, cp: Point, k: int)
    requires
        0 <= k,
    ensures
        0 <= page_rows(items, cp, k) <= k,
    decreases k,
{
    if k > 0 {
        lemma_page_rows(items, cp, k - 1);
    }
}

impl Menu {
    /// The page of the active entry.
    fn cur_page(&self) -> (p: Point)
        ensures
            p == cur_page(self.items@, self.active),
    {
        match self.slot(self.active) {
            Some(i) => {
                proof {
                    lemma_first_from(self.items@.len() as int, pos_is(self.items@, self.active), 0);
                }
                self.items[i].page
            },
            None => Point::new(0, 0),
        }
    }

    /// The part of the grid the menu uses on the active page.
    fn page_grid_range(&self) -> (r: Range)
        requires
            self.wf(),
        ensures
            r == page_range(self.items@, self.layout, self.box_ is Some, self.grid@.spec_width(), cur_page(self.items@, self.active)),
            -1 <= r.min.x <= 4 * menu_limit() + 1,
            -1 <= r.min.y <= 4 * menu_limit() + 1,
            -1 <= r.max.x <= 4 * menu_limit() + 1,
            -1 <= r.max.y <= 4 * menu_limit() + 1,
    {
        proof {
            self.lemma_wf_items();
        }
        let cp = self.cur_page();
        let n: usize = self.items.len();
        if self.layout.y > 0 && self.layout.x == 0 {
            let mut u = Range::zero();
            let mut i: usize = 0;
            while i < n
                invariant
                    n == self.items@.len(),
                    0 <= i <= n,
                    u == page_union(self.items@, cp, i as int),
                    forall|i: int| 0 <= i < self.items@.len() ==> {
                        &&& 0 <= (#[trigger] self.items@[i]).bounds.min.x <= 4 * menu_limit()
                        &&& 0 <= self.items@[i].bounds.min.y <= 4 * menu_limit()
                        &&& 0 <= self.items@[i].bounds.max.x <= 4 * menu_limit()
                        &&& 0 <= self.items@[i].bounds.max.y <= 4 * menu_limit()
                    },
                decreases n - i,
            {
                if self.items[i].page == cp {
                    u = u.union(self.items[i].bounds);
                }
                i = i + 1;
            }
            proof {
                lemma_page_union(self.items@, cp, n as int);
            }
            if self.box_.is_some() {
                u = u.shift(-1, -1, 1, 1);
            }
            u
        } else {
            let mut h: i32 = 0;
            let mut i: usize = 0;
            while i < n
                invariant
                    n == self.items@.len(),
                    n < menu_limit(),
                    0 <= i <= n,
                    h == page_rows(self.items@, cp, i as int),
                decreases n - i,
            {
                proof {
                    lemma_page_rows(self.items@, cp, i as int);
                }
                if self.items[i].pos.x <= 0 && self.items[i].page == cp {
                    h = h + 1;
                }
                i = i + 1;
            }
            proof {
                lemma_page_rows(self.items@, cp, n as int);
            }
            if self.box_.is_some() {
                h = h + 2;
            }
            Range::new(0, 0, self.grid.width(), h)
        }
    }

    /// The part of the menu inside its box.
    fn content_range(&self) -> (r: Range)
        requires
            self.wf(),
        ensures
            r == content_of(
                page_range(self.items@, self.layout, self.box_ is Some, self.grid@.spec_width(), cur_page(self.items@, self.active)),
                self.box_ is Some,
            ),
    {
        let outer = self.page_grid_range();
        if self.box_.is_some() {
            outer.shift(1, 1, -1, -1)
        } else {
            outer
        }
    }

    /// The entry under `p` on the active page.
    fn point_slot(&self, p: Point) -> (r: Option<usize>)
        ensures
            opt_int(r) == pointed(self.items@, self.active, p),
    {
        let cp = self.cur_page();
        let ghost f = hit(self.items@, cp, p);
        let mut i: usize = 0;
        while i < self.items.len()
            invariant
                0 <= i <= self.items@.len(),
                f == hit(self.items@, cp, p),
                cp == cur_page(self.items@, self.active),
                pointed(self.items@, self.active, p) == first_from(self.items@.len() as int, f, i as int),
            decreases self.items@.len() - i,
        {
            let it = self.items[i];
            if it.page == cp && it.bounds.contains(p) {
                assert(f(i as int));
                return Some(i);
            }
            assert(!f(i as int));
            i = i + 1;
        }
        None
    }
}

/// The entries that `key` is a shortcut of and that are enabled.
pub open spec fn shortcut(es: Seq<MenuEntry>, key: Key) -> spec_fn(int) -> bool {
    |i: int| !es[i].disabled && es[i].keys@.contains(key)
}

/// A move's outcome: the new position, and `Move` when it changed.
pub open spec fn move_outcome(a: Point, b: Point) -> (Point, MenuAction) {
    (b, if b != a { MenuAction::Move } else { MenuAction::Pass })
}

/// A page change's outcome: `Move` when there is a page to go to.
pub open spec fn page_outcome(a: Point, b: Option<Point>) -> (Point, MenuAction) {
    match b {
        Some(q) => (q, MenuAction::Move),
        None => (a, MenuAction::Pass),
    }
}

impl Menu {
    /// What a key press does: the new active position and the action, the
    /// bindings tried in the order quit, down, up, right, left, page down,
    /// page up, invoke, then the entries' own shortcuts.
    pub open spec fn after_key(&self, key: Key) -> (Point, MenuAction) {
        let es = self.spec_entries();
        let its = self.spec_items();
        let a = self.spec_active();
        let k = self.spec_keys();
        let pg = self.spec_pages();
        if k.quit@.contains(key) {
            (a, MenuAction::Quit)
        } else if k.down@.contains(key) {
            move_outcome(a, moved(es, its, a, pt(0, 1)))
        } else if k.up@.contains(key) {
            move_outcome(a, moved(es, its, a, pt(0, -1)))
        } else if k.right@.contains(key) {
            move_outcome(a, moved(es, its, a, pt(1, 0)))
        } else if k.left@.contains(key) {
            move_outcome(a, moved(es, its, a, pt(-1, 0)))
        } else if k.page_down@.contains(key) {
            page_outcome(a, paged_down(its, pg, a))
        } else if k.page_up@.contains(key) {
            page_outcome(a, paged_up(its, pg, a))
        } else if k.invoke@.contains(key) && slot_of(its, a) is Some {
            (a, if es[slot_of(its, a)->0].disabled { MenuAction::Pass } else { MenuAction::Invoke })
        } else {
            match first_from(es.len() as int, shortcut(es, key), 0) {
                Some(i) => (pos_of(its, i), MenuAction::Invoke),
                None => (a, MenuAction::Pass),
            }
        }
    }

    /// The part of the grid the menu uses on the active page.
    pub open spec fn spec_page_range(&self) -> Range {
        page_range(
            self.spec_items(),
            self.spec_layout(),
            self.boxed(),
            self.spec_grid().spec_width(),
            cur_page(self.spec_items(), self.spec_active()),
        )
    }

    /// What a mouse action at `p` does: moving over an entry of the active
    /// page makes it active; the wheel pages; the main button outside the
    /// menu quits and on an entry invokes it (or only moves to it when it
    /// is disabled). Only positions inside the box count for entries.
    pub open spec fn after_mouse(&self, action: MouseAction, p: Point) -> (Point, MenuAction) {
        let es = self.spec_entries();
        let its = self.spec_items();
        let a = self.spec_active();
        let pg = self.spec_pages();
        let outer = self.spec_page_range();
        let inner = content_of(outer, self.boxed());
        match action {
            MouseAction::Move => if inner.spec_contains(p) {
                match pointed(its, a, p) {
                    Some(j) => move_outcome(a, its[j].pos),
                    None => (a, MenuAction::Pass),
                }
            } else {
                (a, MenuAction::Pass)
            },
            MouseAction::WheelDown => if inner.spec_contains(p) {
                page_outcome(a, paged_down(its, pg, a))
            } else {
                (a, MenuAction::Pass)
            },
            MouseAction::WheelUp => if inner.spec_contains(p) {
                page_outcome(a, paged_up(its, pg, a))
            } else {
                (a, MenuAction::Pass)
            },
            MouseAction::Main => if !outer.spec_contains(p) {
                (a, MenuAction::Quit)
            } else if inner.spec_contains(p) {
                match pointed(its, a, p) {
                    Some(j) => (its[j].pos, if es[j].disabled { MenuAction::Move } else { MenuAction::Invoke }),
                    None => (a, MenuAction::Pass),
                }
            } else {
                (a, MenuAction::Pass)
            },
            _ => (a, MenuAction::Pass),
        }
    }

    /// What a message does to the menu: nothing when it has no entries.
    pub open spec fn after_msg(&self, msg: Msg) -> (Point, MenuAction) {
        if self.spec_entries().len() == 0 {
            (self.spec_active(), MenuAction::Pass)
        } else {
            match msg {
                Msg::KeyDown { key, .. } => self.after_key(key),
                Msg::Mouse { action, pos, .. } => self.after_mouse(action, pos),
                _ => (self.spec_active(), MenuAction::Pass),
            }
        }
    }

    /// Whether `other` is this menu with only its cursor and action
    /// changed.
    pub open spec fn same_but_cursor(self, other: Menu) -> bool {
        &&& other.spec_entries() == self.spec_entries()
        &&& other.spec_items() == self.spec_items()
        &&& other.spec_pages() == self.spec_pages()
        &&& other.spec_keys() == self.spec_keys()
        &&& other.spec_style() == self.spec_style()
        &&& other.spec_grid() == self.spec_grid()
        &&& other.boxed() == self.boxed()
        &&& other.spec_layout() == self.spec_layout()
    }

    /// Go to the first entry of the next page.
    fn page_down(&mut self)
        requires
            old(self).wf(),
        ensures
            final(self).wf(),
            ({
                let r = paged_down(old(self).items@, old(self).pages, old(self).active);
                *final(self) == match r {
                    Some(q) => Menu { active: q, action: MenuAction::Move, ..*old(self) },
                    None => *old(self),
                }
            }),
    {
        proof {
            self.lemma_wf_items();
        }
        let d = if self.pages.y > 0 { Point::new(0, 1) } else { Point::new(1, 0) };
        if let Some(j) = self.find_next_page(d) {
            proof {
                self.lemma_next_page_in(d);
            }
            self.active = self.items[j].pos;
            self.action = MenuAction::Move;
        }
    }

    /// Go to the first entry of the previous page.
    fn page_up(&mut self)
        requires
            old(self).wf(),
        ensures
            final(self).wf(),
            ({
                let r = paged_up(old(self).items@, old(self).pages, old(self).active);
                *final(self) == match r {
                    Some(q) => Menu { active: q, action: MenuAction::Move, ..*old(self) },
                    None => *old(self),
                }
            }),
    {
        proof {
            self.lemma_wf_items();
        }
        let d = if self.pages.y > 0 { Point::new(0, -1) } else { Point::new(-1, 0) };
        if let Some(j) = self.find_next_page(d) {
            proof {
                self.lemma_next_page_in(d);
            }
            let target = self.items[j].page;
            let first = match self.first_on_page(target) {
                Some(f) => {
                    proof {
                        lemma_first_from(self.items@.len() as int, page_is(self.items@, target), 0);
                    }
                    self.items[f].pos
                },
                None => self.items[j].pos,
            };
            self.active = first;
            self.action = MenuAction::Move;
        }
    }

    /// The first entry on page `pg`.
    fn first_on_page(&self, pg: Point) -> (r: Option<usize>)
        ensures
            opt_int(r) == first_from(self.items@.len() as int, page_is(self.items@, pg), 0),
    {
        let ghost f = page_is(self.items@, pg);
        let mut i: usize = 0;
        while i < self.items.len()
            invariant
                0 <= i <= self.items@.len(),
                f == page_is(self.items@, pg),
                first_from(self.items@.len() as int, f, 0) == first_from(self.items@.len() as int, f, i as int),
            decreases self.items@.len() - i,
        {
            if self.items[i].page == pg {
                assert(f(i as int));
                return Some(i);
            }
            assert(!f(i as int));
            i = i + 1;
        }
        None
    }

    /// An entry found when leaving the active page is an entry.
    proof fn lemma_next_page_in(&self, d: Point)
        ensures
            match next_page(self.items@, self.active, d) {
                Some(j) => 0 <= j < self.items@.len(),
                None => true,
            },
    {
        let its = self.items@;
        lemma_first_from(its.len() as int, pos_is(its, self.active), 0);
        if let Some(c) = slot_of(its, self.active) {
            let cp = its[c].page;
            lemma_first_from(its.len() as int, page_y_after(its, cp.y as int), c + 1);
            lemma_first_from(its.len() as int, page_x_after(its, cp.x as int), c + 1);
            lemma_last_below(page_y_before(its, cp.y as int), c);
            lemma_last_below(page_x_before(its, cp.x as int), c);
        }
    }
}

impl Menu {
    /// The first enabled entry that `key` is a shortcut of.
    fn shortcut_slot(&self, key: Key) -> (r: Option<usize>)
        ensures
            opt_int(r) == first_from(self.entries@.len() as int, shortcut(self.entries@, key), 0),
    {
        let ghost f = shortcut(self.entries@, key);
        let mut i: usize = 0;
        while i < self.entries.len()
            invariant
                0 <= i <= self.entries@.len(),
                f == shortcut(self.entries@, key),
                first_from(self.entries@.len() as int, f, 0) == first_from(self.entries@.len() as int, f, i as int),
            decreases self.entries@.len() - i,
        {
            if !self.entries[i].disabled && key_in(&self.entries[i].keys, key) {
                assert(f(i as int));
                return Some(i);
            }
            assert(!f(i as int));
            i = i + 1;
        }
        None
    }

    fn on_key(&mut self, key: Key)
        requires
            old(self).wf(),
            old(self).action == MenuAction::Pass,
        ensures
            final(self).wf(),
            old(self).same_but_cursor(*final(self)),
            (final(self).spec_active(), final(self).spec_action()) == old(self).after_key(key),
    {
        proof {
            self.lemma_wf_items();
        }
        if key_in(&self.keys.quit, key) {
            self.action = MenuAction::Quit;
        } else if key_in(&self.keys.down, key) {
            self.move_to(Point::new(0, 1));
        } else if key_in(&self.keys.up, key) {
            self.move_to(Point::new(0, -1));
        } else if key_in(&self.keys.right, key) {
            self.move_to(Point::new(1, 0));
        } else if key_in(&self.keys.left, key) {
            self.move_to(Point::new(-1, 0));
        } else if key_in(&self.keys.page_down, key) {
            self.page_down();
        } else if key_in(&self.keys.page_up, key) {
            self.page_up();
        } else if key_in(&self.keys.invoke, key) && self.slot(self.active).is_some() {
            let c: usize = match self.slot(self.active) {
                Some(c) => c,
                None => 0,
            };
            proof {
                lemma_first_from(self.items@.len() as int, pos_is(self.items@, self.active), 0);
            }
            if !self.entries[c].disabled {
                self.action = MenuAction::Invoke;
            }
        } else {
            match self.shortcut_slot(key) {
                Some(i) => {
                    proof {
                        lemma_first_from(self.entries@.len() as int, shortcut(self.entries@, key), 0);
                    }
                    self.active = self.idx_to_pos(i);
                    self.action = MenuAction::Invoke;
                },
                None => {},
            }
        }
    }

    fn on_mouse(&mut self, action: MouseAction, p: Point)
        requires
            old(self).wf(),
            old(self).action == MenuAction::Pass,
        ensures
            final(self).wf(),
            old(self).same_but_cursor(*final(self)),
            (final(self).spec_active(), final(self).spec_action()) == old(self).after_mouse(action, p),
    {
        proof {
            self.lemma_wf_items();
        }
        let outer = self.page_grid_range();
        let inner = self.content_range();
        match action {
            MouseAction::Move => {
                if inner.contains(p) {
                    if let Some(j) = self.point_slot(p) {
                        proof {
                            lemma_first_from(self.items@.len() as int, hit(self.items@, cur_page(self.items@, self.active), p), 0);
                        }
                        let q = self.items[j].pos;
                        if q != self.active {
                            self.active = q;
                            self.action = MenuAction::Move;
                        }
                    }
                }
            },
            MouseAction::WheelDown => {
                if inner.contains(p) {
                    self.page_down();
                }
            },
            MouseAction::WheelUp => {
                if inner.contains(p) {
                    self.page_up();
                }
            },
            MouseAction::Main => {
                if !outer.contains(p) {
                    self.action = MenuAction::Quit;
                } else if inner.contains(p) {
                    if let Some(j) = self.point_slot(p) {
                        proof {
                            lemma_first_from(self.items@.len() as int, hit(self.items@, cur_page(self.items@, self.active), p), 0);
                        }
                        self.active = self.items[j].pos;
                        if self.entries[j].disabled {
                            self.action = MenuAction::Move;
                        } else {
                            self.action = MenuAction::Invoke;
                        }
                    }
                }
            },
            _ => {},
        }
    }

    /// Process an input message and return the resulting action: see
    /// `after_msg` for what each message does.
    pub fn update(&mut self, msg: Msg) -> (r: MenuAction)
        requires
            old(self).wf(),
        ensures
            final(self).wf(),
            old(self).same_but_cursor(*final(self)),
            (final(self).spec_active(), final(self).spec_action()) == old(self).after_msg(msg),
            r == final(self).spec_action(),
    {
        self.action = MenuAction::Pass;
        if self.entries.len() == 0 {
            return MenuAction::Pass;
        }
        match msg {
            Msg::KeyDown { key, .. } => self.on_key(key),
            Msg::Mouse { action, pos, .. } => self.on_mouse(action, pos),
            _ => {},
        }
        self.action
    }
}

/// The greatest pages are those of some items, or zero.
proof fn lemma_max_pages(items: Seq<MenuItem>)
    requires
        forall|i: int| 0 <= i < items.len() ==> {
            &&& 0 <= (#[trigger] items[i]).page.x <= i
            &&& 0 <= items[i].page.y <= i
        },
    ensures
        0 <= max_pages(items).x <= items.len(),
        0 <= max_pages(items).y <= items.len(),
    decreases items.len(),
{
    if items.len() > 0 {
        let p = items.drop_last();
        assert forall|i: int| 0 <= i < p.len() implies {
            &&& 0 <= (#[trigger] p[i]).page.x <= i
            &&& 0 <= p[i].page.y <= i
        } by {
            assert(p[i] == items[i]);
        }
        lemma_max_pages(p);
    }
}

impl Menu {
    /// Draw the menu into its grid: the box (with the page number as its
    /// footer when it has none and there are several pages) and the
    /// entries of the active page, the active one in the active style.
    /// Returns the part of the grid used.
    pub fn draw(&self) -> (r: Range)
        requires
            self.wf(),
        ensures
            r == self.spec_page_range(),
    {
        proof {
            self.lemma_wf_items();
            lemma_max_pages(self.items@);
        }
        let pgr = self.page_grid_range();
        proof {
            lemma_slice_small(self.grid@, pgr);
        }
        let grid = self.grid.slice(pgr);
        let cp = self.cur_page();
        proof {
            lemma_first_from(self.items@.len() as int, pos_is(self.items@, self.active), 0);
        }
        if let Some(bd) = &self.box_ {
            let mut txt: Vec<char> = Vec::new();
            if self.pages.x == 0 && self.pages.y == 0 {
            } else if self.pages.x == 0 {
                push_decimal(&mut txt, cp.y as u32);
                txt.push('/');
                push_decimal(&mut txt, self.pages.y as u32);
            } else if self.pages.y == 0 {
                push_decimal(&mut txt, cp.x as u32);
                txt.push('/');
                push_decimal(&mut txt, self.pages.x as u32);
            } else {
                push_decimal(&mut txt, cp.x as u32);
                txt.push(',');
                push_decimal(&mut txt, cp.y as u32);
                txt.push('/');
                push_decimal(&mut txt, self.pages.x as u32);
                txt.push(',');
                push_decimal(&mut txt, self.pages.y as u32);
            }
            if txt.len() > 0 && txt.len() < 64 && bd.footer.content().len() == 0 {
                let footer = StyledText::textf(string_of(&txt)).with_style(self.style.page_num);
                let b2 = BoxDecor {
                    style: bd.style,
                    title: bd.title.clone(),
                    footer,
                    align_title: bd.align_title,
                    align_footer: bd.align_footer,
                };
                let _ = b2.draw(&grid);
            } else {
                let _ = bd.draw(&grid);
            }
        }
        let mut i: usize = 0;
        while i < self.items.len()
            invariant
                self.wf(),
                0 <= i <= self.items@.len(),
                0 <= grid@.min.x <= 0x0800_0000,
                0 <= grid@.min.y <= 0x0800_0000,
                -0x0800_0000 <= grid@.max.x <= 0x0800_0000,
                -0x0800_0000 <= grid@.max.y <= 0x0800_0000,
                self.items@.len() == self.entries@.len(),
                forall|i: int| 0 <= i < self.items@.len() ==> {
                    &&& 0 <= (#[trigger] self.items@[i]).bounds.min.x <= 4 * menu_limit()
                    &&& 0 <= self.items@[i].bounds.min.y <= 4 * menu_limit()
                    &&& 0 <= self.items@[i].bounds.max.x <= 4 * menu_limit()
                    &&& 0 <= self.items@[i].bounds.max.y <= 4 * menu_limit()
                },
            decreases self.items@.len() - i,
        {
            let it = self.items[i];
            if it.page == cp {
                let entry = &self.entries[i];
                assert(entry.text.spec_text().len() < menu_limit());
                let mut st = entry.text.style();
                let is_active = it.pos == self.active && !entry.disabled;
                if is_active {
                    if self.style.active.fg != Color::DEFAULT() {
                        st.fg = self.style.active.fg;
                    }
                    if self.style.active.bg != Color::DEFAULT() {
                        st.bg = self.style.active.bg;
                    }
                    if self.style.active.attrs != AttrMask::NONE() {
                        st.attrs = self.style.active.attrs;
                    }
                }
                proof {
                    lemma_slice_small(grid@, it.bounds);
                }
                let item_grid = grid.slice(it.bounds);
                item_grid.fill(Cell::blank().with_char(' ').with_style(st));
                if is_active {
                    let _ = entry.text.clone().with_style(st).draw(&item_grid);
                } else {
                    let _ = entry.text.draw(&item_grid);
                }
            }
            i = i + 1;
        }
        pgr
    }

    /// Draw the menu into its own grid; the grid given is not used.
    pub fn draw_into(&self, _grid: &Grid)
        requires
            self.wf(),
    {
        let _ = self.draw();
    }

    /// The index of the active entry (counting disabled entries); zero when
    /// the cursor is on no entry.
    pub fn active(&self) -> (i: usize)
        ensures
            i == match slot_of(self.spec_items(), self.spec_active()) {
                Some(j) => j,
                None => 0,
            },
    {
        match self.slot(self.active) {
            Some(j) => j,
            None => 0,
        }
    }

    /// Make entry `i` (counting disabled entries) active; no change when
    /// there is no such entry.
    pub fn set_active(&mut self, i: usize)
        requires
            old(self).wf(),
        ensures
            final(self).wf(),
            old(self).same_but_cursor(*final(self)),
            final(self).spec_action() == old(self).spec_action(),
            final(self).spec_active() == if i < old(self).spec_entries().len() {
                old(self).spec_items()[i as int].pos
            } else {
                old(self).spec_active()
            },
    {
        proof {
            self.lemma_wf_items();
        }
        if i < self.entries.len() {
            self.active = self.items[i].pos;
        }
    }

    /// The index of the active entry among the enabled entries; `None`
    /// when the active entry is disabled.
    pub fn active_invokable(&self) -> (r: Option<usize>)
        requires
            self.wf(),
        ensures
            ({
                let raw = match slot_of(self.spec_items(), self.spec_active()) {
                    Some(j) => j,
                    None => 0,
                };
                let es = self.spec_entries();
                opt_int(r) == if raw >= es.len() || es[raw].disabled {
                    None
                } else {
                    Some(count_enabled(es, raw + 1) - 1)
                }
            }),
    {
        proof {
            self.lemma_wf_items();
        }
        let raw = self.active();
        if raw >= self.entries.len() || self.entries[raw].disabled {
            return None;
        }
        proof {
            lemma_count_enabled(self.entries@, raw as int);
        }
        let mut count: usize = 0;
        let mut j: usize = 0;
        while j <= raw
            invariant
                raw < self.entries@.len(),
                self.entries@.len() < menu_limit(),
                0 <= j <= raw + 1,
                count == count_enabled(self.entries@, j as int),
                count <= j,
            decreases raw + 1 - j,
        {
            if !self.entries[j].disabled {
                count = count + 1;
            }
            j = j + 1;
        }
        Some(count - 1)
    }

    /// Make the `i`-th enabled entry active (counting from zero); no change
    /// when there is no such entry.
    pub fn set_active_invokable(&mut self, i: usize)
        requires
            old(self).wf(),
        ensures
            final(self).wf(),
            old(self).same_but_cursor(*final(self)),
            final(self).spec_action() == old(self).spec_action(),
            final(self).spec_active() == match first_from(
                old(self).spec_entries().len() as int,
                nth_enabled(old(self).spec_entries(), i as int),
                0,
            ) {
                Some(j) => old(self).spec_items()[j].pos,
                None => old(self).spec_active(),
            },
    {
        proof {
            self.lemma_wf_items();
        }
        let ghost f = nth_enabled(self.entries@, i as int);
        let mut n: usize = 0;
        let mut j: usize = 0;
        while j < self.entries.len()
            invariant
                self.wf(),
                *self == *old(self),
                forall|i: int| 0 <= i < self.items@.len() ==> {
                    &&& 0 <= (#[trigger] self.items@[i]).pos.x <= i
                    &&& 0 <= self.items@[i].pos.y <= i
                },
                self.entries@.len() < menu_limit(),
                self.items@.len() == self.entries@.len(),
                f == nth_enabled(self.entries@, i as int),
                0 <= j <= self.entries@.len(),
                n == count_enabled(self.entries@, j as int),
                n <= i,
                first_from(self.entries@.len() as int, f, 0) == first_from(self.entries@.len() as int, f, j as int),
            decreases self.entries@.len() - j,
        {
            proof {
                lemma_count_enabled(self.entries@, j as int + 1);
            }
            if !self.entries[j].disabled {
                if n == i {
                    assert(f(j as int));
                    assert(first_from(self.entries@.len() as int, f, j as int) == Some(j as int));
                    self.active = self.items[j].pos;
                    return;
                }
                n = n + 1;
            }
            assert(!f(j as int));
            j = j + 1;
        }
    }

    /// The last action.
    pub fn action(&self) -> (a: MenuAction)
        ensures
            a == self.spec_action(),
    {
        self.action
    }

    /// Replace the entries and lay them out again; the cursor goes to the
    /// last enabled entry when its position holds no entry any more.
    pub fn set_entries(&mut self, entries: Vec<MenuEntry>)
        requires
            old(self).wf(),
            entries_ok(entries@),
        ensures
            final(self).wf(),
            final(self).spec_entries() == entries@,
            final(self).spec_keys() == old(self).spec_keys(),
            final(self).spec_style() == old(self).spec_style(),
            final(self).spec_grid() == old(self).spec_grid(),
            final(self).boxed() == old(self).boxed(),
            final(self).spec_action() == old(self).spec_action(),
            final(self).spec_active() == if slot_of(final(self).spec_items(), old(self).spec_active()) is Some {
                old(self).spec_active()
            } else {
                last_choice(final(self).spec_entries(), final(self).spec_items())
            },
    {
        let (items, pages, layout) = placement(&entries, &self.grid, self.style.layout, self.box_.is_some());
        self.entries = entries;
        self.items = items;
        self.pages = pages;
        self.layout = layout;
        if self.slot(self.active).is_none() {
            self.cursor_at_last_choice();
        }
    }

    /// Replace the box decoration and lay the entries out again.
    pub fn set_box(&mut self, box_: Option<BoxDecor>)
        requires
            old(self).wf(),
            menu_box_ok(box_),
        ensures
            final(self).wf(),
            final(self).spec_entries() == old(self).spec_entries(),
            final(self).spec_keys() == old(self).spec_keys(),
            final(self).spec_style() == old(self).spec_style(),
            final(self).spec_grid() == old(self).spec_grid(),
            final(self).boxed() == (box_ is Some),
            final(self).spec_action() == old(self).spec_action(),
            final(self).spec_active() == old(self).spec_active(),
    {
        let (items, pages, layout) = placement(&self.entries, &self.grid, self.style.layout, box_.is_some());
        self.box_ = box_;
        self.items = items;
        self.pages = pages;
        self.layout = layout;
    }

    /// The cells of the active entry; the zero range when the cursor is on
    /// no entry.
    pub fn active_bounds(&self) -> (r: Range)
        ensures
            r == match slot_of(self.spec_items(), self.spec_active()) {
                Some(j) => self.spec_items()[j].bounds,
                None => zero_range(),
            },
    {
        match self.slot(self.active) {
            Some(j) => {
                proof {
                    lemma_first_from(self.items@.len() as int, pos_is(self.items@, self.active), 0);
                }
                self.items[j].bounds
            },
            None => Range::zero(),
        }
    }

    /// The part of the grid the menu uses on the active page, box included.
    pub fn bounds(&self) -> (r: Range)
        requires
            self.wf(),
        ensures
            r == self.spec_page_range(),
    {
        self.page_grid_range()
    }

    /// The active page: the y-page when the menu pages vertically, else
    /// the x-page.
    pub fn page(&self) -> (p: usize)
        requires
            self.wf(),
        ensures
            ({
                let cp = cur_page(self.spec_items(), self.spec_active());
                p == if self.spec_pages().y > 0 { cp.y as int } else { cp.x as int }
            }),
    {
        proof {
            self.lemma_wf_items();
            lemma_first_from(self.items@.len() as int, pos_is(self.items@, self.active), 0);
        }
        let pg = self.cur_page();
        if self.pages.y > 0 {
            pg.y as usize
        } else {
            pg.x as usize
        }
    }

    /// The number of pages.
    pub fn page_count(&self) -> (c: usize)
        requires
            self.wf(),
        ensures
            c == 1 + if self.spec_pages().y > 0 { self.spec_pages().y as int } else { self.spec_pages().x as int },
    {
        proof {
            self.lemma_wf_items();
            lemma_max_pages(self.items@);
        }
        let p: i32 = if self.pages.y > 0 { self.pages.y } else { self.pages.x };
        (p + 1) as usize
    }
}

/// The entries at which the count of enabled entries so far, less one,
/// reaches `t`.
pub open spec fn nth_enabled(es: Seq<MenuEntry>, t: int) -> spec_fn(int) -> bool {
    |j: int| count_enabled(es, j + 1) - 1 == t
}

/// At most `k` of the first `k` entries are enabled.
proof fn lemma_count_enabled(es: Seq<MenuEntry>, k: int)
    requires
        0 <= k,
    ensures
        0 <= count_enabled(es, k) <= k,
    decreases k,
{
    if k > 0 {
        lemma_count_enabled(es, k - 1);
    }
}

/// Two entries of a table never share a position.
proof fn lemma_table_distinct(i: int, j: int, columns: int, ch: int)
    requires
        0 <= i,
        0 <= j,
        columns >= 1,
        ch >= 1,
        table_slot(i, 0, 0, 1, ch, columns).pos == table_slot(j, 0, 0, 1, ch, columns).pos,
        i < menu_limit(),
        j < menu_limit(),
    ensures
        i == j,
{
    lemma_table_slot(i, columns, ch, 1);
    lemma_table_slot(j, columns, ch, 1);
    let per = columns * ch;
    let (pgi, pii) = (i / per, i % per);
    let (pgj, pij) = (j / per, j % per);
    let (lni, coli) = (pii % ch, pii / ch);
    let (lnj, colj) = (pij % ch, pij / ch);
    assert(coli == colj);
    assert(lni + pgi * ch == lnj + pgj * ch);
    vstd::arithmetic::div_mod::lemma_fundamental_div_mod_converse(lni + pgi * ch, ch, pgi, lni);
    vstd::arithmetic::div_mod::lemma_fundamental_div_mod_converse(lnj + pgj * ch, ch, pgj, lnj);
    assert(pgi == pgj && lni == lnj);
    vstd::arithmetic::div_mod::lemma_fundamental_div_mod(i, per);
    vstd::arithmetic::div_mod::lemma_fundamental_div_mod(j, per);
    vstd::arithmetic::div_mod::lemma_fundamental_div_mod(pii, ch);
    vstd::arithmetic::div_mod::lemma_fundamental_div_mod(pij, ch);
}

impl Menu {
    /// Every entry has a position of its own: the entry found at the
    /// position of entry `j` is entry `j`.
    pub proof fn lemma_slot_of_item(&self, j: int)
        requires
            self.wf(),
            0 <= j < self.spec_items().len(),
        ensures
            slot_of(self.spec_items(), self.spec_items()[j].pos) == Some(j),
    {
        self.lemma_wf_items();
        let its = self.items@;
        let ws = menu_widths(self.entries@);
        let gw = self.grid@.spec_width();
        let gh = self.grid@.spec_height();
        let (kind, ix, iy, iw, cw, ch, columns) = menu_frame(ws.len() as int, gw, gh, self.style.layout, self.box_ is Some);
        let f = pos_is(its, its[j].pos);
        assert forall|k: int| 0 <= k < j implies !#[trigger] f(k) by {
            assert(its[k] == menu_item(ws, gw, gh, self.style.layout, self.box_ is Some, k));
            assert(its[j] == menu_item(ws, gw, gh, self.style.layout, self.box_ is Some, j));
            if its[k].pos == its[j].pos {
                if kind == LayoutKind::Table {
                    lemma_table_distinct(k, j, columns, ch);
                }
            }
        }
        assert(f(j));
        lemma_first_from(its.len() as int, f, 0);
    }
}

impl Menu {
    /// A move in a menu with entries always lands on an entry.
    proof fn lemma_moved_lands(&self, d: Point)
        requires
            self.wf(),
            self.entries@.len() > 0,
        ensures
            slot_of(self.items@, moved(self.entries@, self.items@, self.active, d)) is Some,
    {
        self.lemma_wf_items();
        let es = self.entries@;
        let its = self.items@;
        let b = moved(es, its, self.active, d);
        let q = step(self.active, d, walk_len(es, its, self.active, d));
        if slot_of(its, q) is None {
            self.lemma_next_page_in(d);
            match next_page(its, self.active, d) {
                Some(j) => {
                    self.lemma_slot_of_item(j);
                },
                None => {
                    lemma_first_from(es.len() as int, enabled_at(es), 0);
                    lemma_last_below(enabled_at(es), es.len() as int);
                    if d == pt(0, 1) || d == pt(1, 0) {
                        match first_from(es.len() as int, enabled_at(es), 0) {
                            Some(j) => self.lemma_slot_of_item(j),
                            None => self.lemma_slot_of_item(0),
                        }
                    } else {
                        match last_below(enabled_at(es), es.len() as int) {
                            Some(j) => self.lemma_slot_of_item(j),
                            None => self.lemma_slot_of_item(es.len() - 1),
                        }
                    }
                },
            }
        }
    }

    /// A page change lands on an entry.
    proof fn lemma_paged_lands(&self)
        requires
            self.wf(),
        ensures
            paged_down(self.items@, self.pages, self.active) matches Some(q) ==> slot_of(self.items@, q) is Some,
            paged_up(self.items@, self.pages, self.active) matches Some(q) ==> slot_of(self.items@, q) is Some,
    {
        let its = self.items@;
        self.lemma_next_page_in(pt(0, 1));
        self.lemma_next_page_in(pt(1, 0));
        self.lemma_next_page_in(pt(0, -1));
        self.lemma_next_page_in(pt(-1, 0));
        let dd = if self.pages.y > 0 { pt(0, 1) } else { pt(1, 0) };
        if let Some(j) = next_page(its, self.active, dd) {
            self.lemma_slot_of_item(j);
        }
        let du = if self.pages.y > 0 { pt(0, -1) } else { pt(-1, 0) };
        if let Some(j) = next_page(its, self.active, du) {
            lemma_first_from(its.len() as int, page_is(its, its[j].page), 0);
            match first_from(its.len() as int, page_is(its, its[j].page), 0) {
                Some(f) => self.lemma_slot_of_item(f),
                None => self.lemma_slot_of_item(j),
            }
        }
    }
}

/// Whatever message a menu gets, when it reports a move or an invocation
/// its cursor is on an entry afterwards, and an invoked entry is enabled.
pub proof fn lemma_update_lands(m: &Menu, msg: Msg)
    requires
        m.wf(),
    ensures
        ({
            let (a, act) = m.after_msg(msg);
            &&& (act == MenuAction::Move || act == MenuAction::Invoke) ==> slot_of(m.spec_items(), a) is Some
            &&& act == MenuAction::Invoke ==> !m.spec_entries()[slot_of(m.spec_items(), a)->0].disabled
        }),
{
    m.lemma_wf_items();
    m.lemma_paged_lands();
    let es = m.entries@;
    let its = m.items@;
    if es.len() > 0 {
        match msg {
            Msg::KeyDown { key, .. } => {
                m.lemma_moved_lands(pt(0, 1));
                m.lemma_moved_lands(pt(0, -1));
                m.lemma_moved_lands(pt(1, 0));
                m.lemma_moved_lands(pt(-1, 0));
                lemma_first_from(es.len() as int, shortcut(es, key), 0);
                if let Some(i) = first_from(es.len() as int, shortcut(es, key), 0) {
                    m.lemma_slot_of_item(i);
                    assert(shortcut(es, key)(i));
                }
            },
            Msg::Mouse { action, pos, .. } => {
                lemma_first_from(its.len() as int, hit(its, cur_page(its, m.active), pos), 0);
                if let Some(j) = pointed(its, m.active, pos) {
                    m.lemma_slot_of_item(j);
                }
            },
            _ => {},
        }
    }
}

} // verus!
