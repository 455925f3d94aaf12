//! The decisions of the terminal back-end: which input events become which
//! messages, and how a cell's colours and attributes are rendered. The
//! terminal itself is driven by the application, which describes each
//! event with the types here.
use vstd::prelude::*;

use crate::geom::Point;
use crate::messages::{Key, ModMask, MouseAction};
use crate::style::{AttrMask, Color};

verus! {

/// The terminal back-end's settings.
#[derive(Debug, Clone, Copy, PartialEq, Eq, Structural)]
pub struct CrosstermDriver {
    mouse_enabled: bool,
}

impl CrosstermDriver {
    /// Whether mouse events are captured.
    pub closed spec fn spec_mouse(&self) -> bool {
        self.mouse_enabled
    }

    /// A driver that captures mouse events.
    pub fn new() -> (d: CrosstermDriver)
        ensures
            d.spec_mouse(),
    {
        CrosstermDriver { mouse_enabled: true }
    }

    /// The same driver, capturing mouse events or not.
    pub fn with_mouse(self, enabled: bool) -> (d: CrosstermDriver)
        ensures
            d.spec_mouse() == enabled,
    {
        CrosstermDriver { mouse_enabled: enabled }
    }

    /// Whether mouse events are captured.
    pub fn mouse_enabled(&self) -> (b: bool)
        ensures
            b == self.spec_mouse(),
    {
        self.mouse_enabled
    }
}

impl Default for CrosstermDriver {
    fn default() -> (d: CrosstermDriver)
        ensures
            d.spec_mouse(),
    {
        CrosstermDriver::new()
    }
}

/// A key of a terminal key event.
#[derive(Debug, Clone, Copy, PartialEq, Eq, Structural)]
pub enum TermKeyCode {
    Char(char),
    Enter,
    Esc,
    Backspace,
    Tab,
    Delete,
    Insert,
    Home,
    End,
    PageUp,
    PageDown,
    Up,
    Down,
    Left,
    Right,
    /// Any other key (function keys and the like).
    Other,
}

/// The modifiers held during a terminal event.
#[derive(Debug, Clone, Copy, PartialEq, Eq, Structural)]
pub struct TermMods {
    pub shift: bool,
    pub control: bool,
    pub alt: bool,
    pub meta: bool,
}

/// A mouse button.
#[derive(Debug, Clone, Copy, PartialEq, Eq, Structural)]
pub enum TermButton {
    Left,
    Right,
    Middle,
}

/// What a terminal mouse event reports.
#[derive(Debug, Clone, Copy, PartialEq, Eq, Structural)]
pub enum TermMouseKind {
    Down(TermButton),
    Up,
    Moved,
    Drag,
    ScrollUp,
    ScrollDown,
    /// Any other report (horizontal scrolling and the like).
    Other,
}

/// The key a terminal key stands for; none for other keys.
pub open spec fn spec_to_key(code: TermKeyCode) -> Option<Key> {
    match code {
        TermKeyCode::Char(c) => Some(Key::Char(c)),
        TermKeyCode::Enter => Some(Key::Enter),
        TermKeyCode::Esc => Some(Key::Escape),
        TermKeyCode::Backspace => Some(Key::Backspace),
        TermKeyCode::Tab => Some(Key::Tab),
        TermKeyCode::Delete => Some(Key::Delete),
        TermKeyCode::Insert => Some(Key::Insert),
        TermKeyCode::Home => Some(Key::Home),
        TermKeyCode::End => Some(Key::End),
        TermKeyCode::PageUp => Some(Key::PageUp),
        TermKeyCode::PageDown => Some(Key::PageDown),
        TermKeyCode::Up => Some(Key::ArrowUp),
        TermKeyCode::Down => Some(Key::ArrowDown),
        TermKeyCode::Left => Some(Key::ArrowLeft),
        TermKeyCode::Right => Some(Key::ArrowRight),
        TermKeyCode::Other => None,
    }
}

/// Maps a terminal key to a [`Key`].
pub fn to_key(code: TermKeyCode) -> (k: Option<Key>)
    ensures
        k == spec_to_key(code),
{
    match code {
        TermKeyCode::Char(c) => Some(Key::Char(c)),
        TermKeyCode::Enter => Some(Key::Enter),
        TermKeyCode::Esc => Some(Key::Escape),
        TermKeyCode::Backspace => Some(Key::Backspace),
        TermKeyCode::Tab => Some(Key::Tab),
        TermKeyCode::Delete => Some(Key::Delete),
        TermKeyCode::Insert => Some(Key::Insert),
        TermKeyCode::Home => Some(Key::Home),
        TermKeyCode::End => Some(Key::End),
        TermKeyCode::PageUp => Some(Key::PageUp),
        TermKeyCode::PageDown => Some(Key::PageDown),
        TermKeyCode::Up => Some(Key::ArrowUp),
        TermKeyCode::Down => Some(Key::ArrowDown),
        TermKeyCode::Left => Some(Key::ArrowLeft),
        TermKeyCode::Right => Some(Key::ArrowRight),
        TermKeyCode::Other => None,
    }
}

/// Maps terminal modifiers to a [`ModMask`]: shift, control, alt and meta
/// to their bits.
pub fn to_mod_mask(mods: TermMods) -> (m: ModMask)
    ensures
        m.0 == (if mods.shift { 1int } else { 0int }) + (if mods.control { 2int } else { 0int }) + (if mods.alt {
            4int
        } else {
            0int
        }) + (if mods.meta { 8int } else { 0int }),
{
    let mut v: u8 = 0;
    if mods.shift {
        v = v + 1;
    }
    if mods.control {
        v = v + 2;
    }
    if mods.alt {
        v = v + 4;
    }
    if mods.meta {
        v = v + 8;
    }
    ModMask(v)
}

/// The mouse action a terminal mouse event reports: the left, right and
/// middle buttons are the main, secondary and auxiliary actions, a button
/// let go a release, moving (also while dragging) a move; none for other
/// reports.
pub open spec fn spec_mouse_action(kind: TermMouseKind) -> Option<MouseAction> {
    match kind {
        TermMouseKind::Down(TermButton::Left) => Some(MouseAction::Main),
        TermMouseKind::Down(TermButton::Right) => Some(MouseAction::Secondary),
        TermMouseKind::Down(TermButton::Middle) => Some(MouseAction::Auxiliary),
        TermMouseKind::Up => Some(MouseAction::Release),
        TermMouseKind::Moved => Some(MouseAction::Move),
        TermMouseKind::Drag => Some(MouseAction::Move),
        TermMouseKind::ScrollUp => Some(MouseAction::WheelUp),
        TermMouseKind::ScrollDown => Some(MouseAction::WheelDown),
        TermMouseKind::Other => None,
    }
}

/// The mouse action of a terminal mouse event.
pub fn mouse_action(kind: TermMouseKind) -> (a: Option<MouseAction>)
    ensures
        a == spec_mouse_action(kind),
{
    match kind {
        TermMouseKind::Down(TermButton::Left) => Some(MouseAction::Main),
        TermMouseKind::Down(TermButton::Right) => Some(MouseAction::Secondary),
        TermMouseKind::Down(TermButton::Middle) => Some(MouseAction::Auxiliary),
        TermMouseKind::Up => Some(MouseAction::Release),
        TermMouseKind::Moved => Some(MouseAction::Move),
        TermMouseKind::Drag => Some(MouseAction::Move),
        TermMouseKind::ScrollUp => Some(MouseAction::WheelUp),
        TermMouseKind::ScrollDown => Some(MouseAction::WheelDown),
        TermMouseKind::Other => None,
    }
}

/// The position of a mouse event at terminal column `column` and row
/// `row`.
pub fn mouse_pos(column: u16, row: u16) -> (p: Point)
    ensures
        p.x == column,
        p.y == row,
{
    Point::new(column as i32, row as i32)
}

/// The terminal colour of a colour: `None` (the terminal's default) for
/// the default colour, else its red, green and blue components.
pub fn term_color(c: Color) -> (r: Option<(u8, u8, u8)>)
    ensures
        r == if c.0 == 0 {
            None
        } else {
            Some((((c.0 / 65536) % 256) as u8, ((c.0 / 256) % 256) as u8, (c.0 % 256) as u8))
        },
{
    if c == Color::DEFAULT() {
        None
    } else {
        Some((c.r(), c.g(), c.b()))
    }
}

/// The terminal attributes to set for a cell, in the order bold, italic,
/// underlined, reverse and dim; and whether they must be reset after it.
pub fn term_attrs(attrs: AttrMask) -> (r: ([bool; 5], bool))
    ensures
        r.0@ == seq![
            attrs.0 & 1 == 1,
            attrs.0 & 2 == 2,
            attrs.0 & 4 == 4,
            attrs.0 & 16 == 16,
            attrs.0 & 32 == 32,
        ],
        r.1 == (attrs.0 != 0),
{
    (
        [
            attrs.contains(AttrMask::BOLD()),
            attrs.contains(AttrMask::ITALIC()),
            attrs.contains(AttrMask::UNDERLINE()),
            attrs.contains(AttrMask::REVERSE()),
            attrs.contains(AttrMask::DIM()),
        ],
        attrs != AttrMask::NONE(),
    )
}

} // verus!
