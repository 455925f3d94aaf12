//! Geometry primitives: [`Point`] and [`Range`].
use vstd::prelude::*;
use vstd::std_specs::ops::{AddSpecImpl, SubSpecImpl, MulSpecImpl, DivSpecImpl};
use vstd::std_specs::cmp::PartialEqSpecImpl;
use vstd::std_specs::iter::IteratorSpec;

use crate::messages::Msg;

verus! {

/// Whether an integer fits in an `i32`.
pub open spec fn fits_i32(v: int) -> bool {
    i32::MIN <= v <= i32::MAX
}

/// A 2D integer point. X grows right, Y grows down (screen coordinates).
///
/// Points are ordered row-major: first by `y`, then by `x`.
#[derive(Copy, Clone, Debug, Default, PartialEq, Eq, Structural, PartialOrd, Ord, Hash)]
pub struct Point {
    pub y: i32,
    pub x: i32,
}

/// The point with the given coordinates, as a spec value.
pub open spec fn pt(x: int, y: int) -> Point {
    Point { x: x as i32, y: y as i32 }
}

impl Point {
    /// Create a new point.
    pub fn new(x: i32, y: i32) -> (p: Point)
        ensures
            p.x == x,
            p.y == y,
    {
        Point { x, y }
    }

    /// The origin (0, 0).
    pub fn zero() -> (p: Point)
        ensures
            p.x == 0,
            p.y == 0,
    {
        Point { x: 0, y: 0 }
    }

    /// Return a point shifted by (dx, dy).
    pub fn shift(self, dx: i32, dy: i32) -> (p: Point)
        requires
            fits_i32(self.x + dx),
            fits_i32(self.y + dy),
        ensures
            p.x == self.x + dx,
            p.y == self.y + dy,
    {
        Point { x: self.x + dx, y: self.y + dy }
    }

    /// Whether the point is inside the half-open range.
    pub fn in_range(self, r: &Range) -> (b: bool)
        ensures
            b == r.spec_contains(self),
    {
        r.contains(self)
    }

    /// The four cardinal neighbours (up, right, down, left).
    pub fn neighbors_4(self) -> (ns: [Point; 4])
        requires
            self.x > i32::MIN,
            self.x < i32::MAX,
            self.y > i32::MIN,
            self.y < i32::MAX,
        ensures
            ns@ == seq![
                pt(self.x as int, self.y - 1),
                pt(self.x + 1, self.y as int),
                pt(self.x as int, self.y + 1),
                pt(self.x - 1, self.y as int),
            ],
    {
        [
            Point::new(self.x, self.y - 1),
            Point::new(self.x + 1, self.y),
            Point::new(self.x, self.y + 1),
            Point::new(self.x - 1, self.y),
        ]
    }

    /// All eight neighbours (cardinal + diagonal), clockwise from north.
    pub fn neighbors_8(self) -> (ns: [Point; 8])
        requires
            self.x > i32::MIN,
            self.x < i32::MAX,
            self.y > i32::MIN,
            self.y < i32::MAX,
        ensures
            ns@ == seq![
                pt(self.x as int, self.y - 1),
                pt(self.x + 1, self.y - 1),
                pt(self.x + 1, self.y as int),
                pt(self.x + 1, self.y + 1),
                pt(self.x as int, self.y + 1),
                pt(self.x - 1, self.y + 1),
                pt(self.x - 1, self.y as int),
                pt(self.x - 1, self.y - 1),
            ],
    {
        [
            Point::new(self.x, self.y - 1),
            Point::new(self.x + 1, self.y - 1),
            Point::new(self.x + 1, self.y),
            Point::new(self.x + 1, self.y + 1),
            Point::new(self.x, self.y + 1),
            Point::new(self.x - 1, self.y + 1),
            Point::new(self.x - 1, self.y),
            Point::new(self.x - 1, self.y - 1),
        ]
    }
}

impl core::ops::Add for Point {
    type Output = Point;

    fn add(self, rhs: Point) -> (r: Point) {
        Point { x: self.x + rhs.x, y: self.y + rhs.y }
    }
}

impl AddSpecImpl for Point {
    open spec fn obeys_add_spec() -> bool {
        true
    }

    open spec fn add_req(self, rhs: Point) -> bool {
        fits_i32(self.x + rhs.x) && fits_i32(self.y + rhs.y)
    }

    open spec fn add_spec(self, rhs: Point) -> Point {
        pt(self.x + rhs.x, self.y + rhs.y)
    }
}

impl core::ops::Sub for Point {
    type Output = Point;

    fn sub(self, rhs: Point) -> (r: Point) {
        Point { x: self.x - rhs.x, y: self.y - rhs.y }
    }
}

impl SubSpecImpl for Point {
    open spec fn obeys_sub_spec() -> bool {
        true
    }

    open spec fn sub_req(self, rhs: Point) -> bool {
        fits_i32(self.x - rhs.x) && fits_i32(self.y - rhs.y)
    }

    open spec fn sub_spec(self, rhs: Point) -> Point {
        pt(self.x - rhs.x, self.y - rhs.y)
    }
}

impl core::ops::Mul<i32> for Point {
    type Output = Point;

    fn mul(self, rhs: i32) -> (r: Point) {
        Point { x: self.x * rhs, y: self.y * rhs }
    }
}

impl MulSpecImpl<i32> for Point {
    open spec fn obeys_mul_spec() -> bool {
        true
    }

    open spec fn mul_req(self, rhs: i32) -> bool {
        fits_i32(self.x * rhs) && fits_i32(self.y * rhs)
    }

    open spec fn mul_spec(self, rhs: i32) -> Point {
        pt(self.x * rhs, self.y * rhs)
    }
}

/// Integer division rounding toward zero, as Rust's `/` on signed integers.
pub open spec fn trunc_div(a: int, b: int) -> int {
    if a >= 0 {
        a / b
    } else {
        -((-a) / b)
    }
}

impl core::ops::Div<i32> for Point {
    type Output = Point;

    fn div(self, rhs: i32) -> (r: Point) {
        Point { x: self.x / rhs, y: self.y / rhs }
    }
}

impl DivSpecImpl<i32> for Point {
    open spec fn obeys_div_spec() -> bool {
        true
    }

    open spec fn div_req(self, rhs: i32) -> bool {
        rhs != 0 && !(rhs == -1 && (self.x == i32::MIN || self.y == i32::MIN))
    }

    open spec fn div_spec(self, rhs: i32) -> Point {
        pt(trunc_div(self.x as int, rhs as int), trunc_div(self.y as int, rhs as int))
    }
}

/// A half-open rectangle \[min, max). `min` is inclusive, `max` is exclusive.
///
/// All empty ranges are considered equal.
#[derive(Copy, Clone, Debug, Default)]
pub struct Range {
    pub min: Point,
    pub max: Point,
}

/// The range with the given corners, as a spec value.
pub open spec fn rg(x0: int, y0: int, x1: int, y1: int) -> Range {
    Range { min: pt(x0, y0), max: pt(x1, y1) }
}

/// The zero (empty) range.
pub open spec fn zero_range() -> Range {
    rg(0, 0, 0, 0)
}

pub open spec fn min_int(a: int, b: int) -> int {
    if a <= b { a } else { b }
}

pub open spec fn max_int(a: int, b: int) -> int {
    if a >= b { a } else { b }
}

/// The points of row `y`, from column `x0` and `n` long, left to right.
pub open spec fn row_points(y: int, x0: int, n: nat) -> Seq<Point> {
    Seq::new(n, |i: int| pt(x0 + i, y))
}

impl Range {
    pub open spec fn spec_is_empty(self) -> bool {
        self.min.x >= self.max.x || self.min.y >= self.max.y
    }

    pub open spec fn spec_contains(self, p: Point) -> bool {
        self.min.x <= p.x < self.max.x && self.min.y <= p.y < self.max.y
    }

    pub open spec fn spec_width(self) -> int {
        self.max.x - self.min.x
    }

    pub open spec fn spec_height(self) -> int {
        self.max.y - self.min.y
    }

    /// Both extents can be computed in `i32`.
    pub open spec fn dims_fit(self) -> bool {
        fits_i32(self.max.x - self.min.x) && fits_i32(self.max.y - self.min.y)
    }

    /// Both extents and their negations can be computed in `i32`.
    pub open spec fn dims_sym(self) -> bool {
        self.dims_fit() && fits_i32(-self.spec_width()) && fits_i32(-self.spec_height())
    }

    /// Whether the two ranges describe the same set of points.
    pub open spec fn same(self, other: Range) -> bool {
        (self.min == other.min && self.max == other.max)
            || (self.spec_is_empty() && other.spec_is_empty())
    }

    /// The number of cells of the range.
    pub open spec fn spec_len(self) -> nat {
        if self.spec_is_empty() {
            0
        } else {
            (self.spec_width() * self.spec_height()) as nat
        }
    }

    /// The range translated by `p`.
    pub open spec fn spec_add(self, p: Point) -> Range {
        rg(self.min.x + p.x, self.min.y + p.y, self.max.x + p.x, self.max.y + p.y)
    }

    /// The range translated by `-p`.
    pub open spec fn spec_sub(self, p: Point) -> Range {
        rg(self.min.x - p.x, self.min.y - p.y, self.max.x - p.x, self.max.y - p.y)
    }

    /// The smallest range holding both; an empty operand yields the other.
    /// Whether the range lies inside `r`: it is empty, or clipping it to
    /// `r` leaves it as it is.
    pub open spec fn spec_in_range(self, r: Range) -> bool {
        self.spec_is_empty() || self.spec_intersect(r).same(self)
    }

    pub open spec fn spec_union(self, other: Range) -> Range {
        if self.spec_is_empty() {
            other
        } else if other.spec_is_empty() {
            self
        } else {
            rg(
                min_int(self.min.x as int, other.min.x as int),
                min_int(self.min.y as int, other.min.y as int),
                max_int(self.max.x as int, other.max.x as int),
                max_int(self.max.y as int, other.max.y as int),
            )
        }
    }

    /// The range with its corners moved, normalised to the zero range when
    /// empty.
    pub open spec fn spec_shift(self, dx0: int, dy0: int, dx1: int, dy1: int) -> Range {
        let s = rg(self.min.x + dx0, self.min.y + dy0, self.max.x + dx1, self.max.y + dy1);
        if s.spec_is_empty() { zero_range() } else { s }
    }

    /// The intersection, normalised to the zero range when empty.
    pub open spec fn spec_intersect(self, other: Range) -> Range {
        let r = rg(
            max_int(self.min.x as int, other.min.x as int),
            max_int(self.min.y as int, other.min.y as int),
            min_int(self.max.x as int, other.max.x as int),
            min_int(self.max.y as int, other.max.y as int),
        );
        if r.spec_is_empty() { zero_range() } else { r }
    }

    /// The first `k` rows of the range, row-major.
    pub open spec fn rows(self, k: nat) -> Seq<Point>
        decreases k,
    {
        if k == 0 {
            Seq::empty()
        } else {
            self.rows((k - 1) as nat) + row_points(
                self.min.y + k - 1,
                self.min.x as int,
                self.spec_width() as nat,
            )
        }
    }

    /// All points of the range in row-major order.
    pub open spec fn points_seq(self) -> Seq<Point> {
        if self.spec_is_empty() {
            Seq::empty()
        } else {
            self.rows(self.spec_height() as nat)
        }
    }

    /// Create a new range from two corners, canonicalised so that
    /// `min` <= `max` on each axis.
    pub fn new(x0: i32, y0: i32, x1: i32, y1: i32) -> (r: Range)
        ensures
            r == rg(min_int(x0 as int, x1 as int), min_int(y0 as int, y1 as int),
                    max_int(x0 as int, x1 as int), max_int(y0 as int, y1 as int)),
    {
        let (ax, bx) = if x0 <= x1 { (x0, x1) } else { (x1, x0) };
        let (ay, by) = if y0 <= y1 { (y0, y1) } else { (y1, y0) };
        Range { min: Point { x: ax, y: ay }, max: Point { x: bx, y: by } }
    }

    /// The zero (empty) range.
    pub fn zero() -> (r: Range)
        ensures
            r == zero_range(),
    {
        Range { min: Point { x: 0, y: 0 }, max: Point { x: 0, y: 0 } }
    }

    /// Size as a `Point` (width, height).
    pub fn size(self) -> (p: Point)
        requires
            self.dims_fit(),
        ensures
            p.x == self.spec_width(),
            p.y == self.spec_height(),
    {
        Point { x: self.max.x - self.min.x, y: self.max.y - self.min.y }
    }

    /// Width of the range.
    pub fn width(self) -> (w: i32)
        requires
            fits_i32(self.max.x - self.min.x),
        ensures
            w == self.spec_width(),
    {
        self.max.x - self.min.x
    }

    /// Height of the range.
    pub fn height(self) -> (h: i32)
        requires
            fits_i32(self.max.y - self.min.y),
        ensures
            h == self.spec_height(),
    {
        self.max.y - self.min.y
    }

    /// A range of the same size translated by `+p`.
    pub fn add(self, p: Point) -> (r: Range)
        requires
            fits_i32(self.min.x + p.x),
            fits_i32(self.min.y + p.y),
            fits_i32(self.max.x + p.x),
            fits_i32(self.max.y + p.y),
        ensures
            r == self.spec_add(p),
    {
        Range { min: self.min + p, max: self.max + p }
    }

    /// A range of the same size translated by `-p`.
    pub fn sub(self, p: Point) -> (r: Range)
        requires
            fits_i32(self.min.x - p.x),
            fits_i32(self.min.y - p.y),
            fits_i32(self.max.x - p.x),
            fits_i32(self.max.y - p.y),
        ensures
            r == self.spec_sub(p),
    {
        Range { min: self.min - p, max: self.max - p }
    }

    /// A range with its corners shifted by the given deltas, or the zero
    /// range when the result would be empty.
    pub fn shift(self, dx0: i32, dy0: i32, dx1: i32, dy1: i32) -> (r: Range)
        requires
            fits_i32(self.min.x + dx0),
            fits_i32(self.min.y + dy0),
            fits_i32(self.max.x + dx1),
            fits_i32(self.max.y + dy1),
        ensures
            r == self.spec_shift(dx0 as int, dy0 as int, dx1 as int, dy1 as int),
    {
        let r = Range { min: self.min.shift(dx0, dy0), max: self.max.shift(dx1, dy1) };
        if r.is_empty() {
            Range::zero()
        } else {
            r
        }
    }

    /// The relative line `y` of the range (0 = first line), or the zero
    /// range when `y` is out of bounds.
    pub fn line(self, y: i32) -> (r: Range)
        requires
            fits_i32(self.min.y + y),
        ensures
            r == if 0 <= y && self.min.y + y < self.max.y && self.min.x < self.max.x {
                rg(self.min.x as int, self.min.y + y, self.max.x as int, self.min.y + y + 1)
            } else {
                zero_range()
            },
    {
        if self.min.shift(0, y).in_range(&self) {
            Range {
                min: Point::new(self.min.x, self.min.y + y),
                max: Point::new(self.max.x, self.min.y + y + 1),
            }
        } else {
            Range::zero()
        }
    }

    /// The relative rows `[y0, y1)`, intersected with the range.
    pub fn lines(self, y0: i32, y1: i32) -> (r: Range)
        requires
            fits_i32(self.min.y + y0),
            fits_i32(self.min.y + y1),
        ensures
            r == self.spec_intersect(
                rg(self.min.x as int, self.min.y + y0, self.max.x as int, self.min.y + y1),
            ),
    {
        let nrg = Range {
            min: Point::new(self.min.x, self.min.y + y0),
            max: Point::new(self.max.x, self.min.y + y1),
        };
        self.intersect(nrg)
    }

    /// The relative column `x` of the range (0 = first column), or the zero
    /// range when `x` is out of bounds.
    pub fn column(self, x: i32) -> (r: Range)
        requires
            fits_i32(self.min.x + x),
        ensures
            r == if 0 <= x && self.min.x + x < self.max.x && self.min.y < self.max.y {
                rg(self.min.x + x, self.min.y as int, self.min.x + x + 1, self.max.y as int)
            } else {
                zero_range()
            },
    {
        if self.min.shift(x, 0).in_range(&self) {
            Range {
                min: Point::new(self.min.x + x, self.min.y),
                max: Point::new(self.min.x + x + 1, self.max.y),
            }
        } else {
            Range::zero()
        }
    }

    /// The relative columns `[x0, x1)`, intersected with the range.
    pub fn columns(self, x0: i32, x1: i32) -> (r: Range)
        requires
            fits_i32(self.min.x + x0),
            fits_i32(self.min.x + x1),
        ensures
            r == self.spec_intersect(
                rg(self.min.x + x0, self.min.y as int, self.min.x + x1, self.max.y as int),
            ),
    {
        let nrg = Range {
            min: Point::new(self.min.x + x0, self.min.y),
            max: Point::new(self.min.x + x1, self.max.y),
        };
        self.intersect(nrg)
    }

    /// Total number of cells in the range.
    pub fn len(self) -> (n: usize)
        requires
            self.spec_len() <= usize::MAX,
        ensures
            n == self.spec_len(),
    {
        if self.is_empty() {
            return 0;
        }
        let w: usize = (self.max.x as i64 - self.min.x as i64) as usize;
        let h: usize = (self.max.y as i64 - self.min.y as i64) as usize;
        w * h
    }

    /// Whether the range has zero or negative area.
    #[verifier::when_used_as_spec(spec_is_empty)]
    pub fn is_empty(self) -> (b: bool)
        ensures
            b == self.spec_is_empty(),
    {
        self.min.x >= self.max.x || self.min.y >= self.max.y
    }

    /// Whether `p` is inside the half-open range.
    #[verifier::when_used_as_spec(spec_contains)]
    pub fn contains(self, p: Point) -> (b: bool)
        ensures
            b == self.spec_contains(p),
    {
        p.x >= self.min.x && p.x < self.max.x && p.y >= self.min.y && p.y < self.max.y
    }

    /// Whether the range is completely contained in `r`. An empty range is
    /// in any range.
    pub fn in_range(self, r: Range) -> (b: bool)
        ensures
            b == self.spec_in_range(r),
    {
        if self.is_empty() {
            return true;
        }
        self.intersect(r) == self
    }

    /// Intersection of two ranges; the zero range when they do not overlap.
    pub fn intersect(self, other: Range) -> (r: Range)
        ensures
            r == self.spec_intersect(other),
    {
        let r = Range {
            min: Point::new(
                if self.min.x >= other.min.x { self.min.x } else { other.min.x },
                if self.min.y >= other.min.y { self.min.y } else { other.min.y },
            ),
            max: Point::new(
                if self.max.x <= other.max.x { self.max.x } else { other.max.x },
                if self.max.y <= other.max.y { self.max.y } else { other.max.y },
            ),
        };
        if r.is_empty() {
            Range::zero()
        } else {
            r
        }
    }

    /// Smallest range that contains both ranges.
    pub fn union(self, other: Range) -> (r: Range)
        ensures
            r == self.spec_union(other),
            self.spec_in_range(r),
            other.spec_in_range(r),
            forall|q: Range| self.spec_in_range(q) && other.spec_in_range(q) ==> #[trigger] r.spec_in_range(q),
    {
        proof {
            lemma_union_least(self, other);
        }
        if self.is_empty() {
            return other;
        }
        if other.is_empty() {
            return self;
        }
        Range {
            min: Point::new(
                if self.min.x <= other.min.x { self.min.x } else { other.min.x },
                if self.min.y <= other.min.y { self.min.y } else { other.min.y },
            ),
            max: Point::new(
                if self.max.x >= other.max.x { self.max.x } else { other.max.x },
                if self.max.y >= other.max.y { self.max.y } else { other.max.y },
            ),
        }
    }

    /// Whether the two ranges overlap (non-empty intersection).
    pub fn overlaps(self, other: Range) -> (b: bool)
        ensures
            b == !self.spec_intersect(other).spec_is_empty(),
    {
        !self.intersect(other).is_empty()
    }

    /// A range-relative version of a message: mouse positions are made
    /// relative to `min`; other messages are returned unchanged.
    pub fn rel_msg(self, msg: Msg) -> (m: Msg)
        requires
            msg matches Msg::Mouse { pos, .. } ==> fits_i32(pos.x - self.min.x)
                && fits_i32(pos.y - self.min.y),
        ensures
            match msg {
                Msg::Mouse { action, pos, modifiers, time } => m == (Msg::Mouse {
                    action,
                    pos: pt(pos.x - self.min.x, pos.y - self.min.y),
                    modifiers,
                    time,
                }),
                _ => m == msg,
            },
    {
        match msg {
            Msg::Mouse { action, pos, modifiers, time } => Msg::Mouse {
                action,
                pos: pos - self.min,
                modifiers,
                time,
            },
            other => other,
        }
    }

    /// All points of the range, row-major.
    pub fn points(self) -> (v: Vec<Point>)
        requires
            self.spec_len() <= usize::MAX,
        ensures
            v@ == self.points_seq(),
    {
        let mut v: Vec<Point> = Vec::new();
        if self.is_empty() {
            return v;
        }
        let mut y: i32 = self.min.y;
        while y < self.max.y
            invariant
                !self.spec_is_empty(),
                self.min.y <= y <= self.max.y,
                v@ == self.rows((y - self.min.y) as nat),
            decreases self.max.y - y,
        {
            let ghost prev = v@;
            let mut x: i32 = self.min.x;
            while x < self.max.x
                invariant
                    !self.spec_is_empty(),
                    self.min.y <= y < self.max.y,
                    self.min.x <= x <= self.max.x,
                    v@ == prev + row_points(y as int, self.min.x as int, (x - self.min.x) as nat),
                decreases self.max.x - x,
            {
                v.push(Point { x, y });
                x = x + 1;
            }
            y = y + 1;
        }
        v
    }

    /// Row-major iterator over every point in the range.
    pub fn iter(self) -> (it: std::vec::IntoIter<Point>)
        requires
            self.spec_len() <= usize::MAX,
        ensures
            it.remaining() == self.points_seq(),
    {
        self.points().into_iter()
    }

    /// The key under which the range is hashed: all empty ranges share one.
    pub fn hash_key(self) -> (k: (i32, i32, i32, i32))
        ensures
            k == if self.spec_is_empty() {
                (0i32, 0i32, 0i32, 0i32)
            } else {
                (self.min.x, self.min.y, self.max.x, self.max.y)
            },
    {
        if self.is_empty() {
            (0, 0, 0, 0)
        } else {
            (self.min.x, self.min.y, self.max.x, self.max.y)
        }
    }
}

impl PartialEq for Range {
    fn eq(&self, other: &Range) -> (b: bool) {
        (self.min == other.min && self.max == other.max) || (self.is_empty() && other.is_empty())
    }
}

impl PartialEqSpecImpl for Range {
    open spec fn obeys_eq_spec() -> bool {
        true
    }

    open spec fn eq_spec(&self, other: &Range) -> bool {
        self.same(*other)
    }
}

impl Eq for Range {
}

/// Feeds a tuple of four integers to a hasher (`Hash::hash` on the tuple).
#[verifier::external_body]
fn hash_tuple<H: core::hash::Hasher>(k: (i32, i32, i32, i32), state: &mut H) {
    core::hash::Hash::hash(&k, state)
}

impl core::hash::Hash for Range {
    fn hash<H: core::hash::Hasher>(&self, state: &mut H) {
        let k = self.hash_key();
        hash_tuple(k, state)
    }
}

impl core::ops::Add<Point> for Range {
    type Output = Range;

    fn add(self, p: Point) -> (r: Range) {
        Range { min: self.min + p, max: self.max + p }
    }
}

impl AddSpecImpl<Point> for Range {
    open spec fn obeys_add_spec() -> bool {
        true
    }

    open spec fn add_req(self, p: Point) -> bool {
        fits_i32(self.min.x + p.x) && fits_i32(self.min.y + p.y) && fits_i32(self.max.x + p.x)
            && fits_i32(self.max.y + p.y)
    }

    open spec fn add_spec(self, p: Point) -> Range {
        rg(self.min.x + p.x, self.min.y + p.y, self.max.x + p.x, self.max.y + p.y)
    }
}

impl core::ops::Sub<Point> for Range {
    type Output = Range;

    fn sub(self, p: Point) -> (r: Range) {
        Range { min: self.min - p, max: self.max - p }
    }
}

impl SubSpecImpl<Point> for Range {
    open spec fn obeys_sub_spec() -> bool {
        true
    }

    open spec fn sub_req(self, p: Point) -> bool {
        fits_i32(self.min.x - p.x) && fits_i32(self.min.y - p.y) && fits_i32(self.max.x - p.x)
            && fits_i32(self.max.y - p.y)
    }

    open spec fn sub_spec(self, p: Point) -> Range {
        rg(self.min.x - p.x, self.min.y - p.y, self.max.x - p.x, self.max.y - p.y)
    }
}

/// Translating a range by `p` and back gives the range again.
pub proof fn lemma_add_sub_round_trip(r: Range, p: Point)
    requires
        fits_i32(r.min.x + p.x),
        fits_i32(r.min.y + p.y),
        fits_i32(r.max.x + p.x),
        fits_i32(r.max.y + p.y),
    ensures
        r.spec_add(p).spec_sub(p) == r,
{
}

/// The union of two ranges is the least range holding both: each lies
/// inside it, and it lies inside every range that holds both.
pub proof fn lemma_union_least(a: Range, b: Range)
    ensures
        a.spec_in_range(a.spec_union(b)),
        b.spec_in_range(a.spec_union(b)),
        forall|r: Range| a.spec_in_range(r) && b.spec_in_range(r) ==> #[trigger] a.spec_union(b).spec_in_range(r),
{
    assert forall|r: Range| a.spec_in_range(r) && b.spec_in_range(r) implies #[trigger] a.spec_union(b).spec_in_range(r) by {
        let u = a.spec_union(b);
        if !a.spec_is_empty() && !b.spec_is_empty() {
            assert(a.spec_intersect(r).same(a));
            assert(b.spec_intersect(r).same(b));
            assert(r.min.x <= a.min.x && a.max.x <= r.max.x && r.min.y <= a.min.y && a.max.y <= r.max.y);
            assert(r.min.x <= b.min.x && b.max.x <= r.max.x && r.min.y <= b.min.y && b.max.y <= r.max.y);
        }
    }
}

} // verus!
