//! Input events: [`Msg`], [`Key`], [`MouseAction`], [`ModMask`].
use vstd::prelude::*;
use std::time::Instant;

use crate::geom::Point;

verus! {

/// The standard library's monotonic clock reading, carried through messages.
#[verifier::external_type_specification]
#[verifier::external_body]
pub struct ExInstant(Instant);

/// Reads the monotonic clock (`std::time::Instant::now`); nothing is
/// promised of the reading.
#[verifier::external_body]
fn instant_now() -> Instant {
    Instant::now()
}

/// A keyboard key.
#[derive(Clone, Copy, Debug, PartialEq, Eq, Structural, Hash)]
pub enum Key {
    ArrowUp,
    ArrowDown,
    ArrowLeft,
    ArrowRight,
    Escape,
    Enter,
    Tab,
    Space,
    Backspace,
    Delete,
    Home,
    End,
    PageUp,
    PageDown,
    Insert,
    /// A printable character.
    Char(char),
}

/// Bitmask of modifier keys held during an input event.
#[derive(Copy, Clone, Debug, PartialEq, Eq, Structural, Hash, Default)]
pub struct ModMask(pub u8);

impl ModMask {
    /// No modifier.
    #[allow(non_snake_case)]
    pub fn NONE() -> (m: ModMask)
        ensures
            m.0 == 0,
    {
        ModMask(0)
    }

    /// The shift key.
    #[allow(non_snake_case)]
    pub fn SHIFT() -> (m: ModMask)
        ensures
            m.0 == 1,
    {
        ModMask(1)
    }

    /// The control key.
    #[allow(non_snake_case)]
    pub fn CTRL() -> (m: ModMask)
        ensures
            m.0 == 2,
    {
        ModMask(2)
    }

    /// The alt key.
    #[allow(non_snake_case)]
    pub fn ALT() -> (m: ModMask)
        ensures
            m.0 == 4,
    {
        ModMask(4)
    }

    /// The meta key.
    #[allow(non_snake_case)]
    pub fn META() -> (m: ModMask)
        ensures
            m.0 == 8,
    {
        ModMask(8)
    }

    /// Whether this mask contains all bits of `other`.
    pub fn contains(self, other: ModMask) -> (b: bool)
        ensures
            b == ((self.0 & other.0) == other.0),
    {
        (self.0 & other.0) == other.0
    }

    /// Whether no modifier is set.
    pub fn is_empty(self) -> (b: bool)
        ensures
            b == (self.0 == 0),
    {
        self.0 == 0
    }

    /// Union of two masks.
    pub fn union(self, other: ModMask) -> (m: ModMask)
        ensures
            m.0 == self.0 | other.0,
    {
        ModMask(self.0 | other.0)
    }

    /// Intersection of two masks.
    pub fn intersection(self, other: ModMask) -> (m: ModMask)
        ensures
            m.0 == self.0 & other.0,
    {
        ModMask(self.0 & other.0)
    }
}

/// A mouse action.
#[derive(Copy, Clone, Debug, PartialEq, Eq, Structural, Hash)]
pub enum MouseAction {
    /// Primary (left) button pressed.
    Main,
    /// Middle button pressed.
    Auxiliary,
    /// Secondary (right) button pressed.
    Secondary,
    WheelUp,
    WheelDown,
    /// Button released.
    Release,
    /// Mouse moved (no button state change).
    Move,
}

/// An input message delivered to the application.
#[derive(Clone, Copy, Debug)]
pub enum Msg {
    /// A key was pressed.
    KeyDown { key: Key, modifiers: ModMask, time: Instant },
    /// A mouse event.
    Mouse { action: MouseAction, pos: Point, modifiers: ModMask, time: Instant },
    /// The screen / terminal was resized.
    Screen { width: i32, height: i32, time: Instant },
    /// Sent once when the application starts.
    Init,
    /// Request to quit.
    Quit,
}

impl Msg {
    /// A `KeyDown` with no modifiers, stamped with the current time.
    pub fn key(key: Key) -> (m: Msg)
        ensures
            m matches Msg::KeyDown { key: k, modifiers: md, .. } && k == key && md.0 == 0,
    {
        Msg::KeyDown { key, modifiers: ModMask(0), time: instant_now() }
    }

    /// A `KeyDown` with modifiers, stamped with the current time.
    pub fn key_mod(key: Key, modifiers: ModMask) -> (m: Msg)
        ensures
            m matches Msg::KeyDown { key: k, modifiers: md, .. } && k == key && md == modifiers,
    {
        Msg::KeyDown { key, modifiers, time: instant_now() }
    }
}

} // verus!
