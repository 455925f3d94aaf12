//! The graph a search runs on, as the user describes it.
use vstd::prelude::*;

use crate::geom::Point;

verus! {

/// Minimal path finding interface: neighbour enumeration.
pub trait Pather {
    /// Append the neighbours of `p` to `buf`. The caller clears `buf`
    /// before calling.
    fn neighbors(&self, p: Point, buf: &mut Vec<Point>);
}

/// The neighbours that `pather` gives for `p`, collected in a fresh vector.
pub fn neighbor_list<P: Pather>(pather: &P, p: Point) -> Vec<Point> {
    let mut buf: Vec<Point> = Vec::new();
    pather.neighbors(p, &mut buf);
    buf
}

/// Whether `s` is a list that `neighbor_list` may give for `p` with this
/// pather: for a pather that always answers alike, the neighbours of `p`.
pub open spec fn is_answer<P: Pather>(pather: &P, p: Point, s: Seq<Point>) -> bool {
    exists|v: Vec<Point>| #[trigger] call_ensures(neighbor_list::<P>, (pather, p), v) && v@ == s
}

/// Whether `b` is among some list of neighbours that `pather` may give
/// for `a`.
pub open spec fn answer_step<P: Pather>(pather: &P, a: Point, b: Point) -> bool {
    exists|s: Seq<Point>| #[trigger] is_answer(pather, a, s) && s.contains(b)
}

/// A pather with weighted edges.
pub trait WeightedPather: Pather {
    /// Cost of moving from `from` to the adjacent `to`; meant to be > 0.
    fn cost(&self, from: Point, to: Point) -> i32;
}

/// A pather with a heuristic for A*.
pub trait AstarPather: WeightedPather {
    /// Estimate of the distance from `from` to `to`; meant never to
    /// overestimate the true cost.
    fn estimate(&self, from: Point, to: Point) -> i32;
}

} // verus!
