//! Grid distances.
use vstd::prelude::*;

use crate::geom::{Point, fits_i32};

verus! {

pub open spec fn abs_int(v: int) -> int {
    if v < 0 { -v } else { v }
}

/// Manhattan (L1) distance of two points, as a spec value.
pub open spec fn spec_manhattan(a: Point, b: Point) -> int {
    abs_int(a.x - b.x) + abs_int(a.y - b.y)
}

/// Chebyshev (L-infinity) distance of two points, as a spec value.
pub open spec fn spec_chebyshev(a: Point, b: Point) -> int {
    let dx = abs_int(a.x - b.x);
    let dy = abs_int(a.y - b.y);
    if dx >= dy { dx } else { dy }
}

/// Manhattan (L1) distance between two points.
pub fn manhattan(a: Point, b: Point) -> (d: i32)
    requires
        fits_i32(spec_manhattan(a, b)),
    ensures
        d == spec_manhattan(a, b),
{
    let dx: i64 = a.x as i64 - b.x as i64;
    let dy: i64 = a.y as i64 - b.y as i64;
    let ax: i64 = if dx < 0 { -dx } else { dx };
    let ay: i64 = if dy < 0 { -dy } else { dy };
    (ax + ay) as i32
}

/// Chebyshev (L-infinity) distance between two points.
pub fn chebyshev(a: Point, b: Point) -> (d: i32)
    requires
        fits_i32(spec_chebyshev(a, b)),
    ensures
        d == spec_chebyshev(a, b),
{
    let dx: i64 = a.x as i64 - b.x as i64;
    let dy: i64 = a.y as i64 - b.y as i64;
    let ax: i64 = if dx < 0 { -dx } else { dx };
    let ay: i64 = if dy < 0 { -dy } else { dy };
    if ax >= ay {
        ax as i32
    } else {
        ay as i32
    }
}

/// Both distances are metrics' lower bounds of each other: Chebyshev never
/// exceeds Manhattan, which never exceeds twice Chebyshev.
pub proof fn lemma_chebyshev_le_manhattan(a: Point, b: Point)
    ensures
        spec_chebyshev(a, b) <= spec_manhattan(a, b) <= 2 * spec_chebyshev(a, b),
{
}

} // verus!
