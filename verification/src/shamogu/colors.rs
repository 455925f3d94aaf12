//! Colour palette, close to an ANSI terminal's look on a dark background.
use vstd::prelude::*;

use crate::style::Color;

verus! {

/// Default terminal background (reset).
#[allow(non_snake_case)]
pub fn BG() -> (c: Color)
    ensures
        c.0 == 0x000000,
{
    Color(0x000000)
}

/// Lit field-of-view background, a subtle dark shade.
#[allow(non_snake_case)]
pub fn BG_LIT() -> (c: Color)
    ensures
        c.0 == 0x282A36,
{
    Color(0x282A36)
}

/// Default terminal foreground (reset).
#[allow(non_snake_case)]
pub fn FG() -> (c: Color)
    ensures
        c.0 == 0x000000,
{
    Color(0x000000)
}

/// Dimmed foreground for explored terrain out of view.
#[allow(non_snake_case)]
pub fn FG_DIM() -> (c: Color)
    ensures
        c.0 == 0x62646A,
{
    Color(0x62646A)
}

/// Bright white for emphasis and the player.
#[allow(non_snake_case)]
pub fn FG_EMPH() -> (c: Color)
    ensures
        c.0 == 0xF8F8F2,
{
    Color(0xF8F8F2)
}

/// Wall in view: light blue-grey.
#[allow(non_snake_case)]
pub fn WALL_FG() -> (c: Color)
    ensures
        c.0 == 0x969BAA,
{
    Color(0x969BAA)
}

/// Floor in view: medium grey.
#[allow(non_snake_case)]
pub fn FLOOR_FG() -> (c: Color)
    ensures
        c.0 == 0x6E737D,
{
    Color(0x6E737D)
}

/// Foliage in view: green.
#[allow(non_snake_case)]
pub fn FOLIAGE_FG() -> (c: Color)
    ensures
        c.0 == 0x50A050,
{
    Color(0x50A050)
}

/// Rubble in view: brownish yellow.
#[allow(non_snake_case)]
pub fn RUBBLE_FG() -> (c: Color)
    ensures
        c.0 == 0xAA8C50,
{
    Color(0xAA8C50)
}

/// Translucent wall in view: cyan-ish.
#[allow(non_snake_case)]
pub fn TLWALL_FG() -> (c: Color)
    ensures
        c.0 == 0x64A0B4,
{
    Color(0x64A0B4)
}

/// Red.
#[allow(non_snake_case)]
pub fn RED() -> (c: Color)
    ensures
        c.0 == 0xFF5555,
{
    Color(0xFF5555)
}

/// Green.
#[allow(non_snake_case)]
pub fn GREEN() -> (c: Color)
    ensures
        c.0 == 0x50C850,
{
    Color(0x50C850)
}

/// Yellow.
#[allow(non_snake_case)]
pub fn YELLOW() -> (c: Color)
    ensures
        c.0 == 0xDCC83C,
{
    Color(0xDCC83C)
}

/// Blue.
#[allow(non_snake_case)]
pub fn BLUE() -> (c: Color)
    ensures
        c.0 == 0x6482FF,
{
    Color(0x6482FF)
}

/// Magenta.
#[allow(non_snake_case)]
pub fn MAGENTA() -> (c: Color)
    ensures
        c.0 == 0xD264D2,
{
    Color(0xD264D2)
}

/// Cyan.
#[allow(non_snake_case)]
pub fn CYAN() -> (c: Color)
    ensures
        c.0 == 0x50D2D2,
{
    Color(0x50D2D2)
}

/// Orange.
#[allow(non_snake_case)]
pub fn ORANGE() -> (c: Color)
    ensures
        c.0 == 0xDC8C32,
{
    Color(0xDC8C32)
}

/// Violet.
#[allow(non_snake_case)]
pub fn VIOLET() -> (c: Color)
    ensures
        c.0 == 0x8C78FF,
{
    Color(0x8C78FF)
}

/// Health bar, healthy (green).
#[allow(non_snake_case)]
pub fn HP_GOOD() -> (c: Color)
    ensures
        c.0 == 0x50C850,
{
    Color(0x50C850)
}

/// Health bar, hurt (yellow).
#[allow(non_snake_case)]
pub fn HP_WARN() -> (c: Color)
    ensures
        c.0 == 0xDCC83C,
{
    Color(0xDCC83C)
}

/// Health bar, critical (orange).
#[allow(non_snake_case)]
pub fn HP_CRIT() -> (c: Color)
    ensures
        c.0 == 0xDC8C32,
{
    Color(0xDC8C32)
}

/// Status highlights (blue).
#[allow(non_snake_case)]
pub fn STAT_BLUE() -> (c: Color)
    ensures
        c.0 == 0x6482FF,
{
    Color(0x6482FF)
}

/// The player's '@'.
#[allow(non_snake_case)]
pub fn PLAYER_FG() -> (c: Color)
    ensures
        c.0 == 0x64A0FF,
{
    Color(0x64A0FF)
}

/// The colour of a monster drawn with `ch`, by family; the default
/// foreground for others.
pub open spec fn spec_monster_color(ch: char) -> Color {
    if ch == 'r' || ch == 'h' || ch == 'B' || ch == 'H' {
        Color(0xFF5555)
    } else if ch == 's' || ch == 'p' || ch == 'n' || ch == 'c' {
        Color(0xDCC83C)
    } else if ch == 'e' || ch == 'L' || ch == 'C' || ch == 'M' {
        Color(0xD264D2)
    } else if ch == 'a' || ch == 'v' || ch == 'T' || ch == 'O' {
        Color(0x50C850)
    } else if ch == 'l' || ch == 'P' || ch == 'G' {
        Color(0xDC8C32)
    } else if ch == 'F' || ch == 'D' || ch == 'K' || ch == 'I' {
        Color(0x6482FF)
    } else if ch == 'b' || ch == 'w' || ch == 'W' || ch == 'f' {
        Color(0x50D2D2)
    } else {
        Color(0)
    }
}

/// Get the colour for a monster entity based on its display character.
pub fn monster_color(ch: char) -> (c: Color)
    ensures
        c == spec_monster_color(ch),
{
    match ch {
        'r' | 'h' | 'B' | 'H' => RED(),
        's' | 'p' | 'n' | 'c' => YELLOW(),
        'e' | 'L' | 'C' | 'M' => MAGENTA(),
        'a' | 'v' | 'T' | 'O' => GREEN(),
        'l' | 'P' | 'G' => ORANGE(),
        'F' | 'D' | 'K' | 'I' => BLUE(),
        'b' | 'w' | 'W' | 'f' => CYAN(),
        _ => FG(),
    }
}

} // verus!
