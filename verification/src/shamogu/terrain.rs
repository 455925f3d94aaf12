//! Terrain kinds of the game map and what they allow.
use vstd::prelude::*;

use crate::rl::grid::Cell as RlCell;

verus! {

/// Solid rock.
#[allow(non_snake_case)]
pub fn WALL() -> (c: RlCell)
    ensures
        c == RlCell(0),
{
    RlCell(0)
}

/// Open floor.
#[allow(non_snake_case)]
pub fn FLOOR() -> (c: RlCell)
    ensures
        c == RlCell(1),
{
    RlCell(1)
}

/// Foliage: passable, hinders sight.
#[allow(non_snake_case)]
pub fn FOLIAGE() -> (c: RlCell)
    ensures
        c == RlCell(2),
{
    RlCell(2)
}

/// Rubble: passable, blocks sight.
#[allow(non_snake_case)]
pub fn RUBBLE() -> (c: RlCell)
    ensures
        c == RlCell(3),
{
    RlCell(3)
}

/// A wall one can see through.
#[allow(non_snake_case)]
pub fn TRANSLUCENT_WALL() -> (c: RlCell)
    ensures
        c == RlCell(4),
{
    RlCell(4)
}

/// Terrain known to be passable, of unknown kind.
#[allow(non_snake_case)]
pub fn UNKNOWN_PASSABLE() -> (c: RlCell)
    ensures
        c == RlCell(5),
{
    RlCell(5)
}

/// Terrain not yet known.
#[allow(non_snake_case)]
pub fn UNKNOWN() -> (c: RlCell)
    ensures
        c == RlCell(6),
{
    RlCell(6)
}

/// Floor, foliage and rubble can be walked on.
pub open spec fn spec_passable(c: RlCell) -> bool {
    c.0 == 1 || c.0 == 2 || c.0 == 3
}

/// Walls and rubble block the line of sight.
pub open spec fn spec_blocks_los(c: RlCell) -> bool {
    c.0 == 0 || c.0 == 3
}

/// The character a terrain kind is drawn with.
pub open spec fn spec_rune(c: RlCell) -> char {
    if c.0 == 0 {
        '#'
    } else if c.0 == 1 {
        '.'
    } else if c.0 == 2 {
        '"'
    } else if c.0 == 3 {
        '^'
    } else if c.0 == 4 {
        '\u{25ca}'
    } else if c.0 == 5 {
        '\u{266b}'
    } else {
        ' '
    }
}

/// Whether a terrain cell is passable.
pub fn passable(c: RlCell) -> (b: bool)
    ensures
        b == spec_passable(c),
{
    c.0 == 1 || c.0 == 2 || c.0 == 3
}

/// Whether a terrain cell blocks vision.
pub fn blocks_los(c: RlCell) -> (b: bool)
    ensures
        b == spec_blocks_los(c),
{
    c.0 == 0 || c.0 == 3
}

/// Whether terrain is known (not unknown).
pub fn is_known(c: RlCell) -> (b: bool)
    ensures
        b == (c.0 != 6),
{
    c.0 != 6
}

/// Character representation of terrain.
pub fn terrain_rune(c: RlCell) -> (r: char)
    ensures
        r == spec_rune(c),
{
    match c.0 {
        0 => '#',
        1 => '.',
        2 => '"',
        3 => '^',
        4 => '\u{25ca}',
        5 => '\u{266b}',
        _ => ' ',
    }
}

} // verus!
