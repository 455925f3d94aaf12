//! Field of vision algorithms.
//!
//! - **Ray-based** (`vision_map`, `light_map`): octant-parent ray
//!   propagation. Costs accumulate along light rays, as a [`Lighter`]
//!   decides; [`FOV::from`] and [`FOV::ray`] trace rays back.
//! - **Symmetric shadow casting** (`ssc_vision_map`, `ssc_light_map`):
//!   binary visibility with expansive walls.
use vstd::prelude::*;
use vstd::std_specs::iter::IteratorSpec;
use vstd::arithmetic::power::pow;
use vstd::arithmetic::div_mod::lemma_fundamental_div_mod_converse;

use crate::geom::{Point, Range, pt, rg, min_int, max_int};
use crate::paths::pathrange::{PathRange, lemma_index_of_bounds, lemma_index_injective};

verus! {

/// A node lit by the FOV computation, with its accumulated cost.
#[derive(Debug, Clone, Copy, PartialEq, Eq, Structural)]
pub struct LightNode {
    pub pos: Point,
    pub cost: i32,
}

/// The shape of the FOV boundary: square (Chebyshev distance, the default)
/// or circle (Euclidean distance).
#[derive(Debug, Clone, Copy, PartialEq, Eq, Structural, Hash)]
pub enum FovShape {
    Square,
    Circle,
}

impl Default for FovShape {
    fn default() -> (s: FovShape)
        ensures
            s == FovShape::Square,
    {
        FovShape::Square
    }
}

/// The cost of light passing through cells, as the user decides.
pub trait Lighter {
    /// The cost of light propagating from `from` to the adjacent `to`, for
    /// the light source `src`. Normally `cost(src, src, to) == 1` whatever
    /// the terrain at `src`, for symmetry.
    fn cost(&self, src: Point, from: Point, to: Point) -> i32;

    /// The cost at which light from `src` stops propagating; typically the
    /// sight or light distance.
    fn max_cost(&self, src: Point) -> i32;
}

/// A lighter that clips another one to a Euclidean circle: light does not
/// reach cells farther from the source than the inner lighter's maximum
/// cost.
pub struct CircularLighter<L> {
    pub inner: L,
}

impl<L: Lighter> CircularLighter<L> {
    /// Whether `c` is what the clipped lighter gives for light from `src`
    /// stepping from `from` to `to`: `i32::MAX` beyond a circle whose radius
    /// is some maximum cost the inner lighter gives for `src`, else a cost
    /// the inner lighter gives for the step.
    pub closed spec fn clipped_cost(&self, src: Point, from: Point, to: Point, c: i32) -> bool {
        exists|m: i32|
            #[trigger] call_ensures(L::max_cost, (&self.inner, src), m) && if circle_dist_sq(src, to) > m * m {
                c == i32::MAX
            } else {
                call_ensures(L::cost, (&self.inner, src, from, to), c)
            }
    }

    /// Wrap a lighter to produce circular FOV.
    pub fn new(inner: L) -> (c: CircularLighter<L>)
        ensures
            c.inner == inner,
    {
        CircularLighter { inner }
    }
}

impl<L: Lighter> Lighter for CircularLighter<L> {
    fn cost(&self, src: Point, from: Point, to: Point) -> (c: i32)
        ensures
            self.clipped_cost(src, from, to, c),
    {
        let max: i32 = self.inner.max_cost(src);
        let dx: i128 = to.x as i128 - src.x as i128;
        let dy: i128 = to.y as i128 - src.y as i128;
        proof {
            assert(dx * dx <= 0x1_0000_0000 * 0x1_0000_0000) by (nonlinear_arith)
                requires
                    -0x1_0000_0000 <= dx <= 0x1_0000_0000,
            ;
            assert(dy * dy <= 0x1_0000_0000 * 0x1_0000_0000) by (nonlinear_arith)
                requires
                    -0x1_0000_0000 <= dy <= 0x1_0000_0000,
            ;
            assert(dx * dx >= 0 && dy * dy >= 0) by (nonlinear_arith);
            assert((max as int) * (max as int) >= 0) by (nonlinear_arith);
            assert((max as int) * (max as int) <= 0x1_0000_0000 * 0x1_0000_0000) by (nonlinear_arith)
                requires
                    -0x8000_0000 <= max < 0x8000_0000,
            ;
        }
        let dist_sq: i128 = dx * dx + dy * dy;
        let max_sq: i128 = (max as i128) * (max as i128);
        if dist_sq > max_sq {
            return i32::MAX;
        }
        self.inner.cost(src, from, to)
    }

    fn max_cost(&self, src: Point) -> (c: i32) {
        self.inner.max_cost(src)
    }
}

/// The squared Euclidean distance from `src` to `to`.
pub open spec fn circle_dist_sq(src: Point, to: Point) -> int {
    (to.x - src.x) * (to.x - src.x) + (to.y - src.y) * (to.y - src.y)
}

/// The sign of `n`: -1, 0 or 1.
fn sign(n: i32) -> (s: i32)
    ensures
        s == (if n > 0 { 1int } else if n < 0 { -1int } else { 0int }),
{
    if n > 0 {
        1
    } else if n < 0 {
        -1
    } else {
        0
    }
}

/// `a + b`, saturating at the bounds of `i32`.
fn sat_add(a: i32, b: i32) -> (c: i32)
    ensures
        c == (if a + b > i32::MAX { i32::MAX as int } else if a + b < i32::MIN { i32::MIN as int } else { a
            + b }),
{
    let s: i64 = a as i64 + b as i64;
    if s > i32::MAX as i64 {
        i32::MAX
    } else if s < i32::MIN as i64 {
        i32::MIN
    } else {
        s as i32
    }
}

/// `a + b`, saturated to the bounds of `i32`.
pub open spec fn sat_sum(a: int, b: int) -> int {
    if a + b > i32::MAX {
        i32::MAX as int
    } else if a + b < i32::MIN {
        i32::MIN as int
    } else {
        a + b
    }
}

/// The largest extent of a field of vision's range on either axis.
pub open spec fn fov_dim() -> int {
    16384
}

/// Whether a range can back a field of vision: its extents are
/// non-negative and at most `fov_dim()`, and its coordinates lie well
/// inside `i32`, so that every offset the algorithms compute fits.
pub open spec fn fov_ok(r: Range) -> bool {
    &&& 0 <= r.spec_width() <= fov_dim()
    &&& 0 <= r.spec_height() <= fov_dim()
    &&& -0x2000_0000 <= r.min.x
    &&& -0x2000_0000 <= r.min.y
    &&& r.max.x <= 0x2000_0000
    &&& r.max.y <= 0x2000_0000
}

/// Whether a point lies well inside `i32`, as the range's points do.
pub open spec fn small_point(p: Point) -> bool {
    -0x2000_0000 <= p.x <= 0x2000_0000 && -0x2000_0000 <= p.y <= 0x2000_0000
}

/// The visible points that a well-formed field of vision keeps lie well
/// inside `i32`.
pub proof fn lemma_visibles_small(f: FOV, k: int)
    requires
        f.wf(),
        0 <= k < f.spec_visibles().len(),
    ensures
        small_point(f.spec_visibles()[k]),
{
}

/// Chebyshev distance, as a spec value.
pub open spec fn cheb(a: Point, b: Point) -> int {
    let dx = if a.x >= b.x { a.x - b.x } else { b.x - a.x };
    let dy = if a.y >= b.y { a.y - b.y } else { b.y - a.y };
    if dx >= dy { dx } else { dy }
}

/// Two points at most one king's move apart.
pub open spec fn near(a: Point, b: Point) -> bool {
    -1 <= a.x - b.x <= 1 && -1 <= a.y - b.y <= 1
}

/// Field of vision computation over a rectangular range.
pub struct FOV {
    range: Range,
    /// Cost map of the ray-based FOV: 0 for unvisited, else cost + 1.
    costs: Vec<i32>,
    /// Visibility map of the shadow casting FOV.
    shadow_casting: Vec<bool>,
    lighted: Vec<LightNode>,
    visibles: Vec<Point>,
    ray_cache: Vec<LightNode>,
    src: Point,
    capacity: usize,
}

impl FOV {
    /// The maps hold no entry or one per cell at least, and the range is
    /// fit for the algorithms.
    pub closed spec fn wf(&self) -> bool {
        &&& fov_ok(self.range)
        &&& self.capacity >= self.range.spec_len()
        &&& (self.costs@.len() == 0 || self.costs@.len() >= self.capacity)
        &&& (self.shadow_casting@.len() == 0 || self.shadow_casting@.len() >= self.capacity)
        &&& forall|k: int| 0 <= k < self.visibles@.len() ==> small_point(#[trigger] self.visibles@[k])
    }

    /// The range of valid positions.
    pub closed spec fn spec_range(&self) -> Range {
        self.range
    }

    /// The source of the last ray-based computation.
    pub closed spec fn spec_src(&self) -> Point {
        self.src
    }

    /// Whether a visibility map has been made.
    pub closed spec fn has_vis_map(&self) -> bool {
        self.shadow_casting@.len() > 0
    }

    /// The nodes lit by the last ray-based computation.
    pub closed spec fn spec_lighted(&self) -> Seq<LightNode> {
        self.lighted@
    }

    /// The points found visible by the last shadow casting computation.
    pub closed spec fn spec_visibles(&self) -> Seq<Point> {
        self.visibles@
    }

    /// The ray cost at `p` from the last `vision_map` or `light_map`:
    /// `None` outside the range or where light did not reach.
    pub closed spec fn cost_at(&self, p: Point) -> Option<i32> {
        if self.range.spec_contains(p) && self.costs@.len() > 0 {
            let c = self.costs@[PathRange::index_of(self.range, p)];
            if c <= 0 {
                None
            } else {
                Some((c - 1) as i32)
            }
        } else {
            None
        }
    }

    /// Whether `p` is visible from the last shadow casting computation.
    pub closed spec fn is_visible(&self, p: Point) -> bool {
        &&& self.range.spec_contains(p)
        &&& self.shadow_casting@.len() > 0
        &&& self.shadow_casting@[PathRange::index_of(self.range, p)]
    }

    /// Create a new FOV for the given range.
    pub fn new(range: Range) -> (f: FOV)
        requires
            fov_ok(range),
        ensures
            f.wf(),
            f.spec_range() == range,
            forall|p: Point| f.cost_at(p) is None && !f.is_visible(p),
    {
        let w: i32 = range.width();
        let h: i32 = range.height();
        proof {
            assert(w * h <= fov_dim() * fov_dim()) by (nonlinear_arith)
                requires
                    0 <= w <= fov_dim(),
                    0 <= h <= fov_dim(),
            ;
            assert(w * h >= 0) by (nonlinear_arith)
                requires
                    0 <= w,
                    0 <= h,
            ;
        }
        let cap: usize = (w as usize) * (h as usize);
        FOV {
            range,
            costs: Vec::new(),
            shadow_casting: Vec::new(),
            lighted: Vec::new(),
            visibles: Vec::new(),
            ray_cache: Vec::new(),
            src: Point::zero(),
            capacity: cap,
        }
    }

    /// Change the range; the maps are dropped when the new range has more
    /// cells than they were made for.
    pub fn set_range(&mut self, range: Range)
        requires
            old(self).wf(),
            fov_ok(range),
        ensures
            final(self).wf(),
            final(self).spec_range() == range,
    {
        let w: i32 = range.width();
        let h: i32 = range.height();
        proof {
            assert(w * h <= fov_dim() * fov_dim()) by (nonlinear_arith)
                requires
                    0 <= w <= fov_dim(),
                    0 <= h <= fov_dim(),
            ;
            assert(w * h >= 0) by (nonlinear_arith)
                requires
                    0 <= w,
                    0 <= h,
            ;
        }
        let cap: usize = (w as usize) * (h as usize);
        self.range = range;
        if cap > self.capacity {
            self.capacity = cap;
            self.costs = Vec::new();
            self.shadow_casting = Vec::new();
        }
    }

    /// The current range.
    pub fn range_(&self) -> (r: Range)
        ensures
            r == self.spec_range(),
    {
        self.range
    }

    /// The flat index of a point of the range.
    fn idx(&self, p: Point) -> (i: usize)
        requires
            fov_ok(self.range),
            self.range.spec_contains(p),
        ensures
            i == PathRange::index_of(self.range, p),
            i < self.range.spec_len(),
    {
        proof {
            lemma_index_of_bounds(self.range, p);
        }
        let qx: i32 = p.x - self.range.min.x;
        let qy: i32 = p.y - self.range.min.y;
        let w: i32 = self.range.width();
        proof {
            assert(qy * w <= fov_dim() * fov_dim()) by (nonlinear_arith)
                requires
                    0 <= qy <= fov_dim(),
                    0 <= w <= fov_dim(),
            ;
            assert(qy * w >= 0) by (nonlinear_arith)
                requires
                    0 <= qy,
                    0 <= w,
            ;
        }
        (qy * w + qx) as usize
    }

    /// Give the cost map one entry per cell at least, zeroed.
    fn reset_costs(&mut self)
        requires
            old(self).wf(),
        ensures
            final(self).wf(),
            final(self).range == old(self).range,
            final(self).capacity == old(self).capacity,
            final(self).shadow_casting == old(self).shadow_casting,
            final(self).visibles == old(self).visibles,
            final(self).lighted == old(self).lighted,
            final(self).src == old(self).src,
            final(self).costs@.len() >= final(self).capacity,
            forall|i: int| 0 <= i < final(self).costs@.len() ==> final(self).costs@[i] == 0,
    {
        let n: usize = if self.costs.len() < self.capacity { self.capacity } else { self.costs.len() };
        let mut v: Vec<i32> = Vec::new();
        let mut i: usize = 0;
        while i < n
            invariant
                i <= n,
                v@.len() == i,
                forall|k: int| 0 <= k < i ==> v@[k] == 0,
            decreases n - i,
        {
            v.push(0);
            i = i + 1;
        }
        self.costs = v;
    }

    /// Give the visibility map one entry per cell at least, cleared.
    fn reset_shadow_casting(&mut self)
        requires
            old(self).wf(),
        ensures
            final(self).wf(),
            final(self).range == old(self).range,
            final(self).capacity == old(self).capacity,
            final(self).costs == old(self).costs,
            final(self).lighted == old(self).lighted,
            final(self).src == old(self).src,
            final(self).visibles == old(self).visibles,
            final(self).shadow_casting@.len() >= final(self).capacity,
            forall|i: int| 0 <= i < final(self).shadow_casting@.len() ==> !final(self).shadow_casting@[i],
    {
        let n: usize = if self.shadow_casting.len() < self.capacity {
            self.capacity
        } else {
            self.shadow_casting.len()
        };
        let mut v: Vec<bool> = Vec::new();
        let mut i: usize = 0;
        while i < n
            invariant
                i <= n,
                v@.len() == i,
                forall|k: int| 0 <= k < i ==> !v@[k],
            decreases n - i,
        {
            v.push(false);
            i = i + 1;
        }
        self.shadow_casting = v;
    }

    /// The total ray cost at `p` from the last `vision_map` or `light_map`,
    /// or `None` if `p` was not reached.
    pub fn at(&self, p: Point) -> (c: Option<i32>)
        requires
            self.wf(),
        ensures
            c == self.cost_at(p),
    {
        if !self.range.contains(p) || self.costs.len() == 0 {
            return None;
        }
        let c: i32 = self.costs[self.idx(p)];
        if c <= 0 {
            None
        } else {
            Some(c - 1)
        }
    }

    /// Whether `p` is visible from the last shadow casting computation.
    pub fn visible(&self, p: Point) -> (b: bool)
        requires
            self.wf(),
        ensures
            b == self.is_visible(p),
    {
        if !self.range.contains(p) || self.shadow_casting.len() == 0 {
            return false;
        }
        self.shadow_casting[self.idx(p)]
    }

    /// The nodes lit by the last `vision_map` or `light_map` call.
    pub fn iter_lighted(&self) -> (it: std::vec::IntoIter<LightNode>)
        ensures
            it.remaining() == self.spec_lighted(),
    {
        let mut v: Vec<LightNode> = Vec::new();
        let mut i: usize = 0;
        while i < self.lighted.len()
            invariant
                i <= self.lighted@.len(),
                v@ == self.lighted@.subrange(0, i as int),
            decreases self.lighted@.len() - i,
        {
            v.push(self.lighted[i]);
            i = i + 1;
        }
        proof {
            assert(v@ =~= self.lighted@);
        }
        v.into_iter()
    }

    /// The points visible from the last shadow casting computation.
    pub fn iter_visible(&self) -> (it: std::vec::IntoIter<Point>)
        ensures
            it.remaining() == self.spec_visibles(),
    {
        let mut v: Vec<Point> = Vec::new();
        let mut i: usize = 0;
        while i < self.visibles.len()
            invariant
                i <= self.visibles@.len(),
                v@ == self.visibles@.subrange(0, i as int),
            decreases self.visibles@.len() - i,
        {
            v.push(self.visibles[i]);
            i = i + 1;
        }
        proof {
            assert(v@ =~= self.visibles@);
        }
        v.into_iter()
    }
}


/// A non-empty stretch of an intersection lies inside the second range.
proof fn lemma_intersect_inside2(r: Range, a: Range)
    ensures
        r.spec_intersect(a).min.x < r.spec_intersect(a).max.x || r.spec_intersect(a).min.y < r.spec_intersect(a).max.y
            ==> a.min.x <= r.spec_intersect(a).min.x && r.spec_intersect(a).max.x <= a.max.x && a.min.y
            <= r.spec_intersect(a).min.y && r.spec_intersect(a).max.y <= a.max.y,
{
}

/// A non-empty stretch of an intersection lies inside the first range.
proof fn lemma_intersect_inside(r: Range, a: Range)
    ensures
        r.spec_intersect(a).min.x < r.spec_intersect(a).max.x ==> r.min.x <= r.spec_intersect(a).min.x
            && r.spec_intersect(a).max.x <= r.max.x && r.min.y <= r.spec_intersect(a).min.y
            && r.spec_intersect(a).max.y <= r.max.y,
        r.spec_intersect(a).min.y < r.spec_intersect(a).max.y ==> r.min.x <= r.spec_intersect(a).min.x
            && r.spec_intersect(a).max.x <= r.max.x && r.min.y <= r.spec_intersect(a).min.y
            && r.spec_intersect(a).max.y <= r.max.y,
{
}

/// Whether `p` is a cell of `r` whose entry in `costs` marks it lit.
pub open spec fn lit(costs: Seq<i32>, r: Range, p: Point) -> bool {
    r.spec_contains(p) && costs[PathRange::index_of(r, p)] > 0
}

/// Whether the lit nodes `l` are at distinct cells of `r`, each holding in
/// `costs` its cost plus one; every lit cell of `r` is listed, and every
/// lit cell but `src` has a lit parent on the way to `src`.
pub open spec fn lighted_ok(costs: Seq<i32>, r: Range, l: Seq<LightNode>, src: Point) -> bool {
    &&& forall|k: int| 0 <= k < l.len() ==> r.spec_contains(#[trigger] l[k].pos) && costs[PathRange::index_of(r, l[k].pos)]
        == l[k].cost + 1 && l[k].cost >= 0
    &&& forall|a: int, b: int| 0 <= a < b < l.len() ==> #[trigger] l[a].pos != #[trigger] l[b].pos
    &&& forall|p: Point| #[trigger] lit(costs, r, p) ==> exists|k: int| 0 <= k < l.len() && l[k].pos == p
    &&& forall|p: Point| #[trigger] lit(costs, r, p) && p != src ==> lit(costs, r, ray_parent(src, p)) || (
    has_side_parent(src, p) && lit(costs, r, side_parent(src, p)))
}

/// Where cell `q` of the ring at distance `d` around `src` is visited: the
/// pass (rows below and above, then columns right and left) and the
/// coordinate along it.
pub open spec fn ring_pos(src: Point, d: int, q: Point) -> (int, int) {
    if q.y == src.y + d {
        (0, q.x as int)
    } else if q.y == src.y - d {
        (1, q.x as int)
    } else if q.x == src.x + d {
        (2, q.y as int)
    } else {
        (3, q.y as int)
    }
}

/// Whether cell `q` is visited before position (`pass`, `v`) of the ring
/// at distance `d`, or lies nearer.
pub open spec fn visited_before(src: Point, d: int, q: Point, pass: int, v: int) -> bool {
    ||| cheb(q, src) < d
    ||| cheb(q, src) == d && (ring_pos(src, d, q).0 < pass || (ring_pos(src, d, q).0 == pass && ring_pos(src, d, q).1 < v))
}

/// Whether `c` lies on the segment's box from `a` to `b`, coordinatewise.
pub open spec fn within(a: Point, c: Point, b: Point) -> bool {
    &&& (a.x <= c.x <= b.x || b.x <= c.x <= a.x)
    &&& (a.y <= c.y <= b.y || b.y <= c.y <= a.y)
}

/// The sign of `n` as an integer.
pub open spec fn sgn(n: int) -> int {
    if n > 0 { 1 } else if n < 0 { -1 } else { 0 }
}

/// The parent of `to` on a ray from `src`: one step toward the source on
/// each axis where they differ.
pub open spec fn ray_parent(src: Point, to: Point) -> Point {
    pt(to.x + sgn(src.x - to.x), to.y + sgn(src.y - to.y))
}

/// Whether `to` has a second parent: it lies off the source's axes and
/// diagonals.
pub open spec fn has_side_parent(src: Point, to: Point) -> bool {
    let qx = src.x - to.x;
    let qy = src.y - to.y;
    !(qx == 0 || qy == 0 || qx == qy || qx == -qy)
}

/// The second parent of `to`: one straight step toward the source along
/// the axis on which it is farther away.
pub open spec fn side_parent(src: Point, to: Point) -> Point {
    let qx = src.x - to.x;
    let qy = src.y - to.y;
    let ax = if qx >= 0 { qx } else { -qx };
    let ay = if qy >= 0 { qy } else { -qy };
    if ax > ay { pt(to.x + sgn(qx), to.y as int) } else { pt(to.x as int, to.y + sgn(qy)) }
}

/// Whether `p` is a parent of `to` on the way to `src` that `costs` marks
/// lit.
pub open spec fn lit_parent_of(r: Range, costs: Seq<i32>, src: Point, p: Point, to: Point) -> bool {
    &&& (p == ray_parent(src, to) || (has_side_parent(src, to) && p == side_parent(src, to)))
    &&& lit(costs, r, p)
}

/// Whether, when `to` has a parent lit in `c0`, light from one of them
/// reaching `to` at a cost positive and below `i32::MAX` left `to` in `c1`
/// at no more than that cost: the parent's stored cost plus a step cost
/// that `lt` may give.
pub open spec fn light_parent_gain<L: Lighter>(lt: &L, r: Range, c0: Seq<i32>, c1: Seq<i32>, src: Point, to: Point) -> bool {
    (lit(c0, r, ray_parent(src, to)) || (has_side_parent(src, to) && lit(c0, r, side_parent(src, to)))) ==> exists|
        p: Point,
        e: i32,
    |
        lit_parent_of(r, c0, src, p, to) && #[trigger] call_ensures(L::cost, (lt, src, p, to), e) && ({
            let cand = sat_sum(c0[PathRange::index_of(r, p)] as int, e as int);
            0 < cand < i32::MAX ==> 0 < c1[PathRange::index_of(r, to)] <= cand
        })
}

/// The span of the ring at distance `d` around `src` within the range.
proof fn lemma_intersect_span(r: Range, area: Range, src: Point, d: int)
    requires
        r.spec_contains(src),
        1 <= d,
        area.min.x == src.x - d,
        area.min.y == src.y - d + 1,
        area.max.x == src.x + d + 1,
        area.max.y == src.y + d,
    ensures
        r.spec_intersect(area).max.x == min_int(r.max.x as int, src.x + d + 1),
        r.spec_intersect(area).max.y == min_int(r.max.y as int, src.y + d),
{
}

/// Whether `p` holds in `costs` no more than the cost that one step of
/// light from the source `src`, lit at cost 0, gives it, as `lt` may give
/// that step's cost: that cost plus one, stored, when it is not negative
/// and the sum stays below `i32::MAX`.
pub open spec fn lit_from_src<L: Lighter>(lt: &L, costs: Seq<i32>, r: Range, src: Point, p: Point) -> bool {
    exists|e: i32|
        #[trigger] call_ensures(L::cost, (lt, src, src, p), e) && (0 <= e < i32::MAX - 1 ==> 0
            < costs[PathRange::index_of(r, p)] <= e + 1)
}

/// Whether every maximum cost that `lt` may give for `src` lets light go
/// one step at least.
pub open spec fn reaches_one<L: Lighter>(lt: &L, src: Point) -> bool {
    forall|m: i32| #[trigger] call_ensures(L::max_cost, (lt, src), m) ==> m >= 1
}

/// A cell next to the source has the source as its only parent.
proof fn lemma_adjacent_parent(src: Point, to: Point)
    requires
        cheb(to, src) == 1,
    ensures
        ray_parent(src, to) == src,
        !has_side_parent(src, to),
{
    assert(ray_parent(src, to).x == src.x);
    assert(ray_parent(src, to).y == src.y);
}

/// What a cost map says of a cell next to a source stays true while the
/// cell's cost, once positive, only goes down.
proof fn lemma_lit_from_src_keep<L: Lighter>(lt: &L, c1: Seq<i32>, c2: Seq<i32>, r: Range, src: Point, p: Point)
    requires
        lit_from_src(lt, c1, r, src, p),
        c1[PathRange::index_of(r, p)] > 0 ==> 0 < c2[PathRange::index_of(r, p)] <= c1[PathRange::index_of(r, p)],
    ensures
        lit_from_src(lt, c2, r, src, p),
{
    let e = choose|e: i32|
        #[trigger] call_ensures(L::cost, (lt, src, src, p), e) && (0 <= e < i32::MAX - 1 ==> 0
            < c1[PathRange::index_of(r, p)] <= e + 1);
    assert(call_ensures(L::cost, (lt, src, src, p), e));
}

impl FOV {
    /// Whether `to` has a parent that the last ray-based computation lit.
    pub open spec fn has_lit_parent(&self, to: Point) -> bool {
        ||| self.cost_at(ray_parent(self.spec_src(), to)) is Some
        ||| has_side_parent(self.spec_src(), to) && self.cost_at(side_parent(self.spec_src(), to)) is Some
    }

    /// Whether `p` is one of the lit parents of `to`.
    pub open spec fn is_lit_parent(&self, p: Point, to: Point) -> bool {
        ||| p == ray_parent(self.spec_src(), to) && self.cost_at(p) is Some
        ||| has_side_parent(self.spec_src(), to) && p == side_parent(self.spec_src(), to) && self.cost_at(p) is Some
    }

    /// Whether every lit cell but the source has a lit parent, so that a
    /// ray can be traced back from every lit cell.
    pub open spec fn rays_closed(&self) -> bool {
        forall|p: Point|
            self.spec_range().spec_contains(p) && #[trigger] self.cost_at(p) is Some && p != self.spec_src()
                ==> self.has_lit_parent(p)
    }

    /// The cheapest lit parent of `to` on the way to the source: the
    /// diagonal (or straight) step toward the source, and for cells off
    /// the axes and diagonals the straight step along the major axis. The
    /// node holds the parent and its stored cost plus the step's cost; the
    /// flag tells whether a lit parent was found.
    fn from_internal<L: Lighter>(&self, lt: &L, to: Point) -> (res: (LightNode, bool))
        requires
            fov_ok(self.range),
            self.range.spec_contains(self.src),
            self.range.spec_contains(to),
            self.costs@.len() >= self.range.spec_len(),
        ensures
            res.1 ==> self.range.spec_contains(res.0.pos) && near(res.0.pos, to) && res.0.cost > i32::MIN,
            res.1 && to != self.src ==> cheb(res.0.pos, self.src) == cheb(to, self.src) - 1,
            !res.1 ==> res.0 == (LightNode { pos: pt(0, 0), cost: 0 }),
            res.1 == self.has_lit_parent(to),
            res.1 ==> self.is_lit_parent(res.0.pos, to),
            res.1 && !(has_side_parent(self.src, to) && self.cost_at(side_parent(self.src, to)) is Some)
                ==> res.0.pos == ray_parent(self.src, to),
            res.1 && self.cost_at(ray_parent(self.src, to)) is None ==> res.0.pos == side_parent(self.src, to),
            res.1 ==> exists|e: i32|
                #[trigger] call_ensures(L::cost, (lt, self.src, res.0.pos, to), e) && res.0.cost == sat_sum(
                    self.costs@[PathRange::index_of(self.range, res.0.pos)] as int,
                    e as int,
                ),
            self.cost_at(ray_parent(self.src, to)) is Some && has_side_parent(self.src, to) && self.cost_at(
                side_parent(self.src, to),
            ) is Some ==> exists|e0: i32, e1: i32|
                #[trigger] call_ensures(L::cost, (lt, self.src, ray_parent(self.src, to), to), e0) && #[trigger] call_ensures(
                    L::cost,
                    (lt, self.src, side_parent(self.src, to), to),
                    e1,
                ) && res.0.cost == min_int(
                    sat_sum(self.costs@[PathRange::index_of(self.range, ray_parent(self.src, to))] as int, e0 as int),
                    sat_sum(self.costs@[PathRange::index_of(self.range, side_parent(self.src, to))] as int, e1 as int),
                ),
    {
        let qx: i32 = self.src.x - to.x;
        let qy: i32 = self.src.y - to.y;
        let rx: i32 = sign(qx);
        let ry: i32 = sign(qy);
        let p0 = Point::new(to.x + rx, to.y + ry);
        proof {
            assert(within(to, p0, self.src));
        }
        let c0: i32 = self.costs[self.idx(p0)];
        let ax: i32 = if qx >= 0 { qx } else { -qx };
        let ay: i32 = if qy >= 0 { qy } else { -qy };
        let has_p1: bool = !(qx == 0 || qy == 0 || ax == ay);
        let p1 = if !has_p1 {
            Point::zero()
        } else if ax > ay {
            Point::new(to.x + rx, to.y)
        } else {
            Point::new(to.x, to.y + ry)
        };
        let p1_cost: i32 = if has_p1 {
            self.costs[self.idx(p1)]
        } else {
            0
        };
        if c0 > 0 && has_p1 && p1_cost > 0 {
            let e0: i32 = lt.cost(self.src, p0, to);
            let cost0: i32 = sat_add(c0, e0);
            let e1: i32 = lt.cost(self.src, p1, to);
            let cost1: i32 = sat_add(p1_cost, e1);
            if cost0 <= cost1 {
                (LightNode { pos: p0, cost: cost0 }, true)
            } else {
                (LightNode { pos: p1, cost: cost1 }, true)
            }
        } else if c0 > 0 {
            let e0: i32 = lt.cost(self.src, p0, to);
            (LightNode { pos: p0, cost: sat_add(c0, e0) }, true)
        } else if has_p1 && p1_cost > 0 {
            let e1: i32 = lt.cost(self.src, p1, to);
            (LightNode { pos: p1, cost: sat_add(p1_cost, e1) }, true)
        } else {
            (LightNode { pos: Point::zero(), cost: 0 }, false)
        }
    }

    /// Light `to` from its cheapest parent when its cost is positive and
    /// finite, and record it among the lit nodes.
    fn vision_update<L: Lighter>(&mut self, lt: &L, to: Point)
        requires
            fov_ok(old(self).range),
            old(self).range.spec_contains(old(self).src),
            old(self).range.spec_contains(to),
            to != old(self).src,
            old(self).costs@.len() >= old(self).range.spec_len(),
        ensures
            final(self).range == old(self).range,
            final(self).src == old(self).src,
            final(self).capacity == old(self).capacity,
            final(self).shadow_casting == old(self).shadow_casting,
            final(self).visibles == old(self).visibles,
            final(self).costs@.len() == old(self).costs@.len(),
            forall|i: int| 0 <= i < old(self).costs@.len() && i != PathRange::index_of(old(self).range, to)
                ==> #[trigger] final(self).costs@[i] == old(self).costs@[i],
            lighted_ok(old(self).costs@, old(self).range, old(self).lighted@, old(self).src) && !lit(old(self).costs@, old(self).range, to)
                ==> lighted_ok(final(self).costs@, final(self).range, final(self).lighted@, old(self).src),
            final(self).lighted@.len() >= old(self).lighted@.len(),
            forall|k: int| 0 <= k < old(self).lighted@.len() ==> #[trigger] final(self).lighted@[k] == old(self).lighted@[k],
            forall|k: int| old(self).lighted@.len() <= k < final(self).lighted@.len() ==> (#[trigger] final(self).lighted@[k]).pos == to
                && final(self).lighted@[k].cost >= 0,
            final(self).lighted@.len() <= old(self).lighted@.len() + 1,
            final(self).lighted@.len() == old(self).lighted@.len() ==> final(self).costs@ == old(self).costs@,
            final(self).lighted@.len() > old(self).lighted@.len() ==> final(self).costs@[PathRange::index_of(old(self).range, to)]
                == final(self).lighted@.last().cost + 1,
            !old(self).has_lit_parent(to) ==> final(self).costs@ == old(self).costs@ && final(self).lighted == old(self).lighted,
    {
        let (n, found) = self.from_internal(lt, to);
        if n.cost > 0 && n.cost < i32::MAX {
            let i = self.idx(to);
            let ghost c0 = self.costs@;
            let ghost l0 = self.lighted@;
            self.costs.set(i, n.cost);
            self.lighted.push(LightNode { pos: to, cost: n.cost - 1 });
            proof {
                if lighted_ok(c0, self.range, l0, self.src) && !lit(c0, self.range, to) {
                    assert forall|k: int| 0 <= k < self.lighted@.len() implies self.range.spec_contains(
                        #[trigger] self.lighted@[k].pos,
                    ) && self.costs@[PathRange::index_of(self.range, self.lighted@[k].pos)] == self.lighted@[k].cost + 1
                        && self.lighted@[k].cost >= 0 by {
                        assert(self.costs@ == c0.update(i as int, n.cost));
                        if k < l0.len() {
                            assert(self.lighted@[k] == l0[k]);
                            lemma_index_of_bounds(self.range, l0[k].pos);
                            if PathRange::index_of(self.range, l0[k].pos) == i {
                                lemma_index_injective(self.range, l0[k].pos, to);
                            }
                        } else {
                            assert(self.lighted@[k].pos == to && self.lighted@[k].cost == n.cost - 1);
                            assert(self.costs@[i as int] == n.cost);
                        }
                    }
                    assert forall|a: int, b: int| 0 <= a < b < self.lighted@.len() implies #[trigger] self.lighted@[a].pos
                        != #[trigger] self.lighted@[b].pos by {
                        assert(self.lighted@[a] == l0[a]);
                        if b < l0.len() {
                            assert(self.lighted@[b] == l0[b]);
                        }
                    }
                    let r = self.range;
                    let src = self.src;
                    assert(found);
                    assert forall|x: Point| lit(c0, r, x) implies #[trigger] lit(self.costs@, r, x) by {
                        lemma_index_of_bounds(r, x);
                        if PathRange::index_of(r, x) == i {
                            lemma_index_injective(r, x, to);
                        }
                    }
                    assert forall|p: Point| #[trigger] lit(self.costs@, r, p) implies exists|k: int|
                        0 <= k < self.lighted@.len() && self.lighted@[k].pos == p by {
                        lemma_index_of_bounds(r, p);
                        if p == to {
                            assert(self.lighted@[self.lighted@.len() - 1].pos == to);
                        } else {
                            if PathRange::index_of(r, p) == i {
                                lemma_index_injective(r, p, to);
                            }
                            assert(lit(c0, r, p));
                            let k = choose|k: int| 0 <= k < l0.len() && l0[k].pos == p;
                            assert(self.lighted@[k] == l0[k]);
                        }
                    }
                    assert forall|p: Point| #[trigger] lit(self.costs@, r, p) && p != src implies lit(self.costs@, r, ray_parent(src, p))
                        || (has_side_parent(src, p) && lit(self.costs@, r, side_parent(src, p))) by {
                        lemma_index_of_bounds(r, p);
                        if p == to {
                            if self.costs@.len() > 0 {
                            }
                            assert(lit(c0, r, ray_parent(src, p)) || (has_side_parent(src, p) && lit(c0, r, side_parent(src, p))));
                            assert(lit(c0, r, ray_parent(src, p)) ==> lit(self.costs@, r, ray_parent(src, p)));
                            assert(lit(c0, r, side_parent(src, p)) ==> lit(self.costs@, r, side_parent(src, p)));
                        } else {
                            if PathRange::index_of(r, p) == i {
                                lemma_index_injective(r, p, to);
                            }
                            assert(lit(c0, r, p));
                            assert(lit(c0, r, ray_parent(src, p)) ==> lit(self.costs@, r, ray_parent(src, p)));
                            assert(lit(c0, r, side_parent(src, p)) ==> lit(self.costs@, r, side_parent(src, p)));
                        }
                    }
                }
            }
        }
    }

    /// Keep the cheaper of the cost `to` holds and the one its cheapest
    /// parent gives, when that one is positive and finite.
    fn light_update<L: Lighter>(&mut self, lt: &L, to: Point)
        requires
            fov_ok(old(self).range),
            old(self).range.spec_contains(old(self).src),
            old(self).range.spec_contains(to),
            to != old(self).src,
            old(self).costs@.len() >= old(self).range.spec_len(),
        ensures
            final(self).range == old(self).range,
            final(self).src == old(self).src,
            final(self).capacity == old(self).capacity,
            final(self).shadow_casting == old(self).shadow_casting,
            final(self).visibles == old(self).visibles,
            final(self).lighted == old(self).lighted,
            final(self).costs@.len() == old(self).costs@.len(),
            forall|i: int| 0 <= i < old(self).costs@.len() && i != PathRange::index_of(old(self).range, to)
                ==> #[trigger] final(self).costs@[i] == old(self).costs@[i],
            forall|i: int| 0 <= i < old(self).costs@.len() && old(self).costs@[i] == 1 ==> #[trigger] final(self).costs@[i] == 1,
            !old(self).has_lit_parent(to) ==> final(self).costs@ == old(self).costs@,
            ({
                let i = PathRange::index_of(old(self).range, to);
                final(self).costs@[i] == old(self).costs@[i] || (final(self).costs@[i] > 0 && (old(self).costs@[i] <= 0
                    || final(self).costs@[i] < old(self).costs@[i]))
            }),
            light_parent_gain(lt, old(self).range, old(self).costs@, final(self).costs@, old(self).src, to),
    {
        proof {
            lemma_index_of_bounds(self.range, to);
            assert(self.costs@.len() > 0);
        }
        let (n, _found) = self.from_internal(lt, to);
        let ghost e: i32 = choose|e: i32|
            #[trigger] call_ensures(L::cost, (lt, self.src, n.pos, to), e) && n.cost == sat_sum(
                self.costs@[PathRange::index_of(self.range, n.pos)] as int,
                e as int,
            );
        if n.cost <= 0 || n.cost == i32::MAX {
            proof {
                if _found {
                    assert(call_ensures(L::cost, (lt, self.src, n.pos, to), e));
                }
            }
            return;
        }
        let i = self.idx(to);
        let cur: i32 = self.costs[i];
        if cur > 0 && cur <= n.cost {
            proof {
                if _found {
                    assert(call_ensures(L::cost, (lt, self.src, n.pos, to), e));
                }
            }
            return;
        }
        let ghost c0 = self.costs@;
        self.costs.set(i, n.cost);
        proof {
            if _found {
                assert(call_ensures(L::cost, (lt, self.src, n.pos, to), e));
                assert(c0[PathRange::index_of(self.range, n.pos)] == old(self).costs@[PathRange::index_of(self.range, n.pos)]);
            }
        }
    }

    /// After the light update of `to`, the `v`-th cell of pass `pass` of
    /// the first ring: costs that were positive only went down, and the
    /// cells next to the source visited so far, `to` now among them, hold
    /// no more than one step of light from the source gives them.
    proof fn lemma_light_ring_step<L: Lighter>(
        lt: &L,
        r: Range,
        src: Point,
        si: int,
        d: int,
        c0: Seq<i32>,
        cb: Seq<i32>,
        c1: Seq<i32>,
        to: Point,
        pass: int,
        v: int,
        adj: bool,
        horizontal: bool,
        fixed: int,
    )
        requires
            fov_ok(r),
            r.spec_contains(src),
            r.spec_contains(to),
            si == PathRange::index_of(r, src),
            0 <= si < r.spec_len(),
            c0.len() >= r.spec_len(),
            cb.len() == c0.len(),
            c1.len() == c0.len(),
            1 <= d,
            cheb(to, src) == d,
            ring_pos(src, d, to) == (pass, v),
            horizontal ==> to == pt(v, fixed),
            !horizontal ==> to == pt(fixed, v),
            horizontal == (pass < 2),
            0 <= pass < 4,
            fixed == (if pass == 0 { src.y + d } else if pass == 1 { src.y - d } else if pass == 2 { src.x + d } else { src.x - d }),
            cb[si] == c0[si],
            forall|i: int| 0 <= i < c0.len() && c0[i] > 0 ==> 0 < #[trigger] cb[i] <= c0[i],
            adj ==> d == 1 && c0[si] == 1,
            adj ==> forall|q: Point|
                r.spec_contains(q) && #[trigger] cheb(q, src) == 1 && visited_before(src, d, q, pass, v)
                    ==> lit_from_src(lt, cb, r, src, q),
            forall|i: int| 0 <= i < cb.len() && i != PathRange::index_of(r, to) ==> #[trigger] c1[i] == cb[i],
            ({
                let i = PathRange::index_of(r, to);
                c1[i] == cb[i] || (c1[i] > 0 && (cb[i] <= 0 || c1[i] < cb[i]))
            }),
            light_parent_gain(lt, r, cb, c1, src, to),
        ensures
            forall|i: int| 0 <= i < c0.len() && c0[i] > 0 ==> 0 < #[trigger] c1[i] <= c0[i],
            adj ==> forall|q: Point|
                r.spec_contains(q) && #[trigger] cheb(q, src) == 1 && visited_before(src, d, q, pass, v + 1)
                    ==> lit_from_src(lt, c1, r, src, q),
    {
        lemma_index_of_bounds(r, to);
        assert forall|i: int| 0 <= i < c0.len() && c0[i] > 0 implies 0 < #[trigger] c1[i] <= c0[i] by {
            assert(0 < cb[i] <= c0[i]);
        }
        if adj {
            assert forall|q: Point|
                r.spec_contains(q) && #[trigger] cheb(q, src) == 1 && visited_before(src, d, q, pass, v + 1)
                    implies lit_from_src(lt, c1, r, src, q) by {
                lemma_index_of_bounds(r, q);
                if q == to {
                    lemma_adjacent_parent(src, to);
                    assert(cb[PathRange::index_of(r, src)] == 1);
                    let (p, e) = choose|p: Point, e: i32|
                        lit_parent_of(r, cb, src, p, to) && #[trigger] call_ensures(L::cost, (lt, src, p, to), e) && ({
                            let cand = sat_sum(cb[PathRange::index_of(r, p)] as int, e as int);
                            0 < cand < i32::MAX ==> 0 < c1[PathRange::index_of(r, to)] <= cand
                        });
                    assert(p == src);
                    assert(call_ensures(L::cost, (lt, src, src, q), e));
                } else {
                    assert(visited_before(src, d, q, pass, v));
                    if PathRange::index_of(r, q) == PathRange::index_of(r, to) {
                        lemma_index_injective(r, q, to);
                    }
                    lemma_lit_from_src_keep(lt, cb, c1, r, src, q);
                }
            }
        }
    }

    /// Update the ring of cells at Chebyshev distance `d` from the source,
    /// row by row then column by column: with `light`, as `light_update`
    /// does, else as `vision_update` does.
    #[verifier::spinoff_prover]
    #[verifier::rlimit(60)]
    fn update_ring<L: Lighter>(&mut self, lt: &L, d: i32, light: bool)
        requires
            fov_ok(old(self).range),
            old(self).range.spec_contains(old(self).src),
            old(self).costs@.len() >= old(self).range.spec_len(),
            1 <= d <= fov_dim(),
            !light ==> forall|k: int| 0 <= k < old(self).lighted@.len() ==> old(self).range.spec_contains(
                #[trigger] old(self).lighted@[k].pos,
            ) && old(self).lighted@[k].cost >= 0,
            !light && lighted_ok(old(self).costs@, old(self).range, old(self).lighted@, old(self).src) ==> forall|q: Point|
                #[trigger] lit(old(self).costs@, old(self).range, q) && q != old(self).src ==> cheb(q, old(self).src) < d,
        ensures
            !light && lighted_ok(old(self).costs@, old(self).range, old(self).lighted@, old(self).src) ==> lighted_ok(
                final(self).costs@,
                final(self).range,
                final(self).lighted@,
                old(self).src,
            ) && forall|q: Point|
                #[trigger] lit(final(self).costs@, final(self).range, q) && q != old(self).src ==> cheb(q, old(self).src) <= d,
            final(self).range == old(self).range,
            final(self).src == old(self).src,
            final(self).capacity == old(self).capacity,
            final(self).shadow_casting == old(self).shadow_casting,
            final(self).visibles == old(self).visibles,
            final(self).costs@.len() == old(self).costs@.len(),
            final(self).costs@[PathRange::index_of(old(self).range, old(self).src)]
                == old(self).costs@[PathRange::index_of(old(self).range, old(self).src)],
            light ==> final(self).lighted == old(self).lighted,
            light ==> forall|i: int| 0 <= i < old(self).costs@.len() && old(self).costs@[i] == 1 ==> #[trigger] final(self).costs@[i] == 1,
            light ==> forall|i: int| 0 <= i < old(self).costs@.len() && old(self).costs@[i] > 0 ==> 0 < #[trigger] final(self).costs@[i]
                <= old(self).costs@[i],
            light && d == 1 && old(self).costs@[PathRange::index_of(old(self).range, old(self).src)] == 1 ==> forall|p: Point|
                old(self).range.spec_contains(p) && #[trigger] cheb(p, old(self).src) == 1 ==> lit_from_src(
                    lt,
                    final(self).costs@,
                    old(self).range,
                    old(self).src,
                    p,
                ),
            final(self).lighted@.len() >= old(self).lighted@.len(),
            forall|k: int| 0 <= k < old(self).lighted@.len() ==> #[trigger] final(self).lighted@[k] == old(self).lighted@[k],
    {
        let ghost r = self.range;
        let ghost s0 = self.src;
        let ghost c0 = self.costs@;
        let ghost l0 = self.lighted@;
        let ghost si = PathRange::index_of(r, s0);
        proof {
            lemma_index_of_bounds(r, s0);
        }
        let src = self.src;
        let area = Range::new(src.x - d, src.y - d + 1, src.x + d + 1, src.y + d);
        let rgn = self.range.intersect(area);
        let ghost good: bool = !light && lighted_ok(c0, r, l0, s0);
        let ghost adj: bool = light && d == 1 && c0[si] == 1;
        proof {
            lemma_intersect_span(r, area, src, d as int);
        }
        let mut pass: u8 = 0;
        while pass < 4
            invariant
                self.range == r,
                self.src == s0,
                s0 == src,
                fov_ok(r),
                r.spec_contains(s0),
                1 <= d <= fov_dim(),
                rgn == r.spec_intersect(area),
                0 <= si < r.spec_len(),
                si == PathRange::index_of(r, s0),
                self.capacity == old(self).capacity,
                self.shadow_casting == old(self).shadow_casting,
                self.visibles == old(self).visibles,
                self.costs@.len() == c0.len(),
                c0 == old(self).costs@,
                c0.len() >= r.spec_len(),
                self.costs@[si] == c0[si],
                light ==> self.lighted == old(self).lighted,
                light ==> forall|i: int| 0 <= i < c0.len() && c0[i] == 1 ==> #[trigger] self.costs@[i] == 1,
                l0 == old(self).lighted@,
                self.lighted@.len() >= l0.len(),
                forall|k: int| 0 <= k < l0.len() ==> #[trigger] self.lighted@[k] == l0[k],
                !light ==> forall|k: int| 0 <= k < self.lighted@.len() ==> r.spec_contains(#[trigger] self.lighted@[k].pos)
                    && self.lighted@[k].cost >= 0,
                pass <= 4,
                good ==> !light,
                good ==> lighted_ok(self.costs@, r, self.lighted@, s0),
                good ==> forall|q: Point| #[trigger] lit(self.costs@, r, q) && q != src ==> visited_before(
                    src,
                    d as int,
                    q,
                    pass as int,
                    -0x1_0000_0000,
                ),
                area == rg(src.x - d, src.y - d + 1, src.x + d + 1, src.y + d as int),
                rgn.max.x == min_int(r.max.x as int, src.x + d + 1),
                rgn.max.y == min_int(r.max.y as int, src.y + d as int),
                adj == (light && d == 1 && c0[si] == 1),
                light ==> forall|i: int| 0 <= i < c0.len() && c0[i] > 0 ==> 0 < #[trigger] self.costs@[i] <= c0[i],
                adj ==> forall|q: Point|
                    r.spec_contains(q) && #[trigger] cheb(q, src) == 1 && visited_before(src, d as int, q, pass as int, -0x1_0000_0000)
                        ==> lit_from_src(lt, self.costs@, r, src, q),
            decreases 4 - pass,
        {
            let horizontal: bool = pass < 2;
            let fixed: i32 = if pass == 0 {
                src.y + d
            } else if pass == 1 {
                src.y - d
            } else if pass == 2 {
                src.x + d
            } else {
                src.x - d
            };
            let active: bool = if pass == 0 {
                src.y + d < self.range.max.y
            } else if pass == 1 {
                src.y - d >= self.range.min.y
            } else if pass == 2 {
                src.x + d < self.range.max.x
            } else {
                src.x - d >= self.range.min.x
            };
            proof {
                if active {
                    if pass == 0 {
                        assert(r.min.y <= fixed < r.max.y);
                    }
                }
            }
            if active {
                let lo: i32 = if horizontal { rgn.min.x } else { rgn.min.y };
                let hi: i32 = if horizontal { rgn.max.x } else { rgn.max.y };
                let mut v: i32 = lo;
                while v < hi
                    invariant
                        self.range == r,
                        self.src == s0,
                        s0 == src,
                        fov_ok(r),
                        r.spec_contains(s0),
                        1 <= d <= fov_dim(),
                        rgn == r.spec_intersect(area),
                        horizontal ==> lo == rgn.min.x && hi == rgn.max.x,
                        !horizontal ==> lo == rgn.min.y && hi == rgn.max.y,
                        horizontal ==> r.min.y <= fixed < r.max.y && fixed != src.y,
                        !horizontal ==> r.min.x <= fixed < r.max.x && fixed != src.x,
                        lo <= v,
                        v <= hi || v == lo,
                        0 <= si < r.spec_len(),
                        si == PathRange::index_of(r, s0),
                        self.capacity == old(self).capacity,
                        self.shadow_casting == old(self).shadow_casting,
                        self.visibles == old(self).visibles,
                        self.costs@.len() == c0.len(),
                        c0.len() >= r.spec_len(),
                        self.costs@[si] == c0[si],
                        light ==> self.lighted == old(self).lighted,
                        light ==> forall|i: int| 0 <= i < c0.len() && c0[i] == 1 ==> #[trigger] self.costs@[i] == 1,
                        self.lighted@.len() >= l0.len(),
                        forall|k: int| 0 <= k < l0.len() ==> #[trigger] self.lighted@[k] == l0[k],
                        !light ==> forall|k: int| 0 <= k < self.lighted@.len() ==> r.spec_contains(#[trigger] self.lighted@[k].pos)
                            && self.lighted@[k].cost >= 0,
                        pass < 4,
                        horizontal == (pass < 2),
                        fixed == (if pass == 0 { src.y + d } else if pass == 1 { src.y - d } else if pass == 2 {
                            src.x + d
                        } else {
                            src.x - d
                        }),
                        area == rg(src.x - d, src.y - d + 1, src.x + d + 1, src.y + d as int),
                        good ==> !light,
                        good ==> lighted_ok(self.costs@, r, self.lighted@, s0),
                        good ==> forall|q: Point| #[trigger] lit(self.costs@, r, q) && q != src ==> visited_before(
                            src,
                            d as int,
                            q,
                            pass as int,
                            v as int,
                        ),
                        rgn.max.x == min_int(r.max.x as int, src.x + d + 1),
                        rgn.max.y == min_int(r.max.y as int, src.y + d as int),
                        adj == (light && d == 1 && c0[si] == 1),
                        c0 == old(self).costs@,
                        light ==> forall|i: int| 0 <= i < c0.len() && c0[i] > 0 ==> 0 < #[trigger] self.costs@[i] <= c0[i],
                        adj ==> forall|q: Point|
                            r.spec_contains(q) && #[trigger] cheb(q, src) == 1 && visited_before(src, d as int, q, pass as int, v as int)
                                ==> lit_from_src(lt, self.costs@, r, src, q),
                    decreases hi - v,
                {
                    let to = if horizontal { Point::new(v, fixed) } else { Point::new(fixed, v) };
                    proof {
                        lemma_intersect_inside(r, area);
                        assert(r.spec_contains(to));
                        lemma_index_of_bounds(r, to);
                        if PathRange::index_of(r, to) == si {
                            lemma_index_injective(r, to, s0);
                        }
                    }
                    proof {
                        lemma_intersect_inside2(r, area);
                        assert(cheb(to, src) == d);
                        assert(ring_pos(src, d as int, to) == (pass as int, v as int));
                        if good && lit(self.costs@, r, to) {
                            assert(!visited_before(src, d as int, to, pass as int, v as int));
                        }
                    }
                    let ghost cb = self.costs@;
                    let ghost lb = self.lighted@;
                    if light {
                        self.light_update(lt, to);
                        proof {
                            Self::lemma_light_ring_step(lt, r, src, si, d as int, c0, cb, self.costs@, to, pass as int, v as int, adj, horizontal, fixed as int);
                        }
                    } else {
                        proof {
                            if good {
                                assert(!lit(cb, r, to));
                                assert(lighted_ok(cb, r, lb, s0));
                            }
                        }
                        self.vision_update(lt, to);
                        proof {
                            if good {
                                assert(lighted_ok(self.costs@, self.range, self.lighted@, self.src));
                            }
                            assert forall|k: int| 0 <= k < self.lighted@.len() implies r.spec_contains(
                                #[trigger] self.lighted@[k].pos,
                            ) && self.lighted@[k].cost >= 0 by {
                                if k < lb.len() {
                                    assert(self.lighted@[k] == lb[k]);
                                }
                            }
                        }
                    }
                    proof {
                        if good {
                            assert forall|q: Point| #[trigger] lit(self.costs@, r, q) && q != src implies visited_before(
                                src,
                                d as int,
                                q,
                                pass as int,
                                v + 1,
                            ) by {
                                if q != to {
                                    lemma_index_of_bounds(r, q);
                                    if PathRange::index_of(r, q) == PathRange::index_of(r, to) {
                                        lemma_index_injective(r, q, to);
                                    }
                                    assert(lit(cb, r, q));
                                }
                            }
                        }
                    }
                    v = v + 1;
                }
                proof {
                    if adj {
                        assert forall|q: Point|
                            r.spec_contains(q) && #[trigger] cheb(q, src) == 1 && visited_before(src, d as int, q, pass + 1, -0x1_0000_0000)
                                implies lit_from_src(lt, self.costs@, r, src, q) by {
                            assert(visited_before(src, d as int, q, pass as int, v as int));
                        }
                    }
                }
            } else {
                proof {
                    if adj {
                        assert forall|q: Point|
                            r.spec_contains(q) && #[trigger] cheb(q, src) == 1 && visited_before(src, d as int, q, pass + 1, -0x1_0000_0000)
                                implies lit_from_src(lt, self.costs@, r, src, q) by {
                            assert(visited_before(src, d as int, q, pass as int, -0x1_0000_0000));
                        }
                    }
                }
            }
            pass = pass + 1;
        }
        proof {
            if good {
                assert forall|q: Point| #[trigger] lit(self.costs@, r, q) && q != s0 implies cheb(q, s0) <= d by {
                    assert(visited_before(s0, d as int, q, 4, -0x1_0000_0000));
                }
            }
        }
    }

    /// The largest ring worth visiting: beyond the range's larger extent
    /// no ring meets the range.
    fn ring_limit(&self, max_cost: i32) -> (d: i32)
        requires
            fov_ok(self.range),
        ensures
            d <= fov_dim(),
            d <= max_cost,
            d == max_cost || (d >= self.range.spec_width() && d >= self.range.spec_height()),
    {
        let w: i32 = self.range.width();
        let h: i32 = self.range.height();
        let m: i32 = if w >= h { w } else { h };
        if max_cost <= m {
            max_cost
        } else {
            m
        }
    }

    /// Compute the ray-based field of vision from `src`: light spreads ring
    /// by ring up to the lighter's maximum cost, each cell taking the
    /// cheapest of its parents toward the source.
    ///
    /// Returns the lit nodes, the source first at cost 0; their costs can
    /// also be consulted with [`at`](Self::at). Nothing is lit when `src`
    /// is outside the range.
    pub fn vision_map<L: Lighter>(&mut self, lt: &L, src: Point) -> (res: &[LightNode])
        requires
            old(self).wf(),
        ensures
            final(self).wf(),
            final(self).spec_range() == old(self).spec_range(),
            res@ == final(self).spec_lighted(),
            !old(self).spec_range().spec_contains(src) ==> res@.len() == 0,
            old(self).spec_range().spec_contains(src) ==> final(self).spec_src() == src && res@.len() >= 1
                && res@[0] == (LightNode { pos: src, cost: 0 }) && final(self).cost_at(src) == Some(0i32),
            forall|k: int| 0 <= k < res@.len() ==> old(self).spec_range().spec_contains(#[trigger] res@[k].pos)
                && res@[k].cost >= 0,
            forall|a: int, b: int| 0 <= a < b < res@.len() ==> #[trigger] res@[a].pos != #[trigger] res@[b].pos,
            forall|k: int| 0 <= k < res@.len() ==> final(self).cost_at(#[trigger] res@[k].pos) == Some(res@[k].cost),
            old(self).spec_range().spec_contains(src) ==> exists|m: i32|
                #[trigger] call_ensures(L::max_cost, (lt, src), m) && forall|k: int|
                    0 <= k < res@.len() ==> cheb(#[trigger] res@[k].pos, src) <= max_int(m as int, 0),
            old(self).spec_range().spec_contains(src) ==> forall|p: Point| #[trigger] final(self).cost_at(p) is Some
                ==> exists|k: int| 0 <= k < res@.len() && res@[k].pos == p,
            old(self).spec_range().spec_contains(src) ==> final(self).rays_closed(),
    {
        let ghost r0 = self.range;
        self.lighted.clear();
        if !self.range.contains(src) {
            return self.lighted.as_slice();
        }
        self.reset_costs();
        self.src = src;
        let si = self.idx(src);
        self.costs.set(si, 1);
        self.lighted.push(LightNode { pos: src, cost: 0 });
        proof {
            assert(self.lighted@ == seq![LightNode { pos: src, cost: 0 }]);
            assert forall|q: Point| #[trigger] lit(self.costs@, self.range, q) && q != src implies cheb(q, src) < 1 by {
                lemma_index_of_bounds(self.range, q);
                if PathRange::index_of(self.range, q) == si {
                    lemma_index_injective(self.range, q, src);
                }
            }
            assert forall|q: Point| #[trigger] lit(self.costs@, self.range, q) implies exists|k: int|
                0 <= k < self.lighted@.len() && self.lighted@[k].pos == q by {
                lemma_index_of_bounds(self.range, q);
                if PathRange::index_of(self.range, q) == si {
                    lemma_index_injective(self.range, q, src);
                }
                assert(self.lighted@[0].pos == src);
            }
            assert(lighted_ok(self.costs@, self.range, self.lighted@, src));
        }
        let max_cost: i32 = lt.max_cost(src);
        let dmax: i32 = self.ring_limit(max_cost);
        let mut d: i32 = 1;
        while d <= dmax
            invariant
                self.wf(),
                self.range.spec_contains(src),
                self.src == src,
                si == PathRange::index_of(self.range, src),
                self.costs@.len() >= self.range.spec_len(),
                self.costs@[si as int] == 1,
                dmax <= fov_dim(),
                1 <= d,
                d <= dmax + 1 || d == 1,
                self.range == old(self).range,
                self.lighted@.len() >= 1,
                self.lighted@[0] == (LightNode { pos: src, cost: 0 }),
                forall|k: int| 0 <= k < self.lighted@.len() ==> self.range.spec_contains(
                    #[trigger] self.lighted@[k].pos,
                ) && self.lighted@[k].cost >= 0,
                lighted_ok(self.costs@, self.range, self.lighted@, src),
                forall|q: Point| #[trigger] lit(self.costs@, self.range, q) && q != src ==> cheb(q, src) < d,
            decreases dmax + 1 - d,
        {
            self.update_ring(lt, d, false);
            d = d + 1;
        }
        proof {
            lemma_index_of_bounds(self.range, src);
            assert(self.costs@.len() > 0);
            assert(self.cost_at(src) == Some(0i32));
        }
        let res = self.lighted.as_slice();
        proof {
            assert(res@ == self.lighted@);
            assert forall|k: int| 0 <= k < res@.len() implies r0.spec_contains(#[trigger] res@[k].pos)
                && res@[k].cost >= 0 by {
                assert(res@[k] == self.lighted@[k]);
                assert(self.range.spec_contains(self.lighted@[k].pos));
            }
            assert(r0 == old(self).spec_range());
            assert(forall|k: int| 0 <= k < res@.len() ==> old(self).spec_range().spec_contains(#[trigger] res@[k].pos)
                && res@[k].cost >= 0);
            assert forall|k: int| 0 <= k < res@.len() implies self.cost_at(#[trigger] res@[k].pos) == Some(res@[k].cost) by {
                assert(res@[k] == self.lighted@[k]);
            }
            assert forall|p: Point| #[trigger] self.cost_at(p) is Some implies exists|k: int| 0 <= k < res@.len() && res@[k].pos == p by {
                assert(lit(self.costs@, self.range, p));
            }
            assert forall|p: Point| self.spec_range().spec_contains(p) && #[trigger] self.cost_at(p) is Some && p != self.spec_src()
                implies self.has_lit_parent(p) by {
                assert(lit(self.costs@, self.range, p));
            }
            assert forall|k: int| 0 <= k < res@.len() implies cheb(#[trigger] res@[k].pos, src) <= max_int(max_cost as int, 0) by {
                assert(res@[k] == self.lighted@[k]);
                if res@[k].pos != src {
                    assert(lit(self.costs@, self.range, self.lighted@[k].pos));
                }
            }
        }
        res
    }

    /// Build a lighting map from several light sources: each cell keeps the
    /// cheapest cost any source gives it.
    ///
    /// Returns the lit nodes, row by row: exactly the cells of the range
    /// that [`at`](Self::at) reports as reached, each with that cost. Every
    /// source in the range is lit at cost 0.
    pub fn light_map<L: Lighter>(&mut self, lt: &L, srcs: &[Point]) -> (res: &[LightNode])
        requires
            old(self).wf(),
        ensures
            final(self).wf(),
            final(self).spec_range() == old(self).spec_range(),
            res@ == final(self).spec_lighted(),
            forall|k: int| 0 <= k < res@.len() ==> final(self).spec_range().spec_contains(#[trigger] res@[k].pos)
                && final(self).cost_at(res@[k].pos) == Some(res@[k].cost),
            forall|p: Point| final(self).spec_range().spec_contains(p) && (#[trigger] final(self).cost_at(p)) is Some
                ==> exists|k: int| 0 <= k < res@.len() && res@[k].pos == p,
            forall|j: int| 0 <= j < srcs@.len() && old(self).spec_range().spec_contains(#[trigger] srcs@[j])
                ==> final(self).cost_at(srcs@[j]) == Some(0i32),
            forall|j: int, p: Point|
                0 <= j < srcs@.len() && old(self).spec_range().spec_contains(srcs@[j]) && reaches_one(lt, srcs@[j])
                    && old(self).spec_range().spec_contains(p) && #[trigger] cheb(p, srcs@[j]) == 1 ==> exists|e: i32|
                    #[trigger] call_ensures(L::cost, (lt, srcs@[j], srcs@[j], p), e) && (0 <= e < i32::MAX - 1
                        ==> (final(self).cost_at(p) matches Some(c) && c <= e)),
    {
        self.reset_costs();
        let ghost r = self.range;
        let mut j: usize = 0;
        while j < srcs.len()
            invariant
                self.wf(),
                self.range == r,
                self.costs@.len() >= self.range.spec_len(),
                j <= srcs@.len(),
                forall|t: int| 0 <= t < j && r.spec_contains(#[trigger] srcs@[t])
                    ==> self.costs@[PathRange::index_of(r, srcs@[t])] == 1,
                forall|t: int, p: Point|
                    0 <= t < j && r.spec_contains(srcs@[t]) && reaches_one(lt, srcs@[t]) && r.spec_contains(p)
                        && #[trigger] cheb(p, srcs@[t]) == 1 ==> lit_from_src(lt, self.costs@, r, srcs@[t], p),
            decreases srcs@.len() - j,
        {
            let src = srcs[j];
            if self.range.contains(src) {
                self.src = src;
                let si = self.idx(src);
                let ghost before = self.costs@;
                self.costs.set(si, 1);
                proof {
                    assert forall|t: int| 0 <= t < j + 1 && r.spec_contains(#[trigger] srcs@[t])
                        implies self.costs@[PathRange::index_of(r, srcs@[t])] == 1 by {
                        lemma_index_of_bounds(r, srcs@[t]);
                    }
                    assert forall|t: int, p: Point|
                        0 <= t < j && r.spec_contains(srcs@[t]) && reaches_one(lt, srcs@[t]) && r.spec_contains(p)
                            && #[trigger] cheb(p, srcs@[t]) == 1 implies lit_from_src(lt, self.costs@, r, srcs@[t], p) by {
                        lemma_index_of_bounds(r, p);
                        assert(lit_from_src(lt, before, r, srcs@[t], p));
                        lemma_lit_from_src_keep(lt, before, self.costs@, r, srcs@[t], p);
                    }
                }
                let max_cost: i32 = lt.max_cost(src);
                let dmax: i32 = self.ring_limit(max_cost);
                let mut d: i32 = 1;
                while d <= dmax
                    invariant
                        self.wf(),
                        self.range == r,
                        r.spec_contains(src),
                        self.src == src,
                        self.costs@.len() >= self.range.spec_len(),
                        dmax <= fov_dim(),
                        1 <= d,
                        d <= dmax + 1 || d == 1,
                        j < srcs@.len(),
                        srcs@[j as int] == src,
                        forall|t: int| 0 <= t < j + 1 && r.spec_contains(#[trigger] srcs@[t])
                            ==> self.costs@[PathRange::index_of(r, srcs@[t])] == 1,
                        forall|t: int, p: Point|
                            0 <= t < j && r.spec_contains(srcs@[t]) && reaches_one(lt, srcs@[t]) && r.spec_contains(p)
                                && #[trigger] cheb(p, srcs@[t]) == 1 ==> lit_from_src(lt, self.costs@, r, srcs@[t], p),
                        d > 1 ==> forall|p: Point|
                            r.spec_contains(p) && #[trigger] cheb(p, src) == 1 ==> lit_from_src(lt, self.costs@, r, src, p),
                    decreases dmax + 1 - d,
                {
                    let ghost before = self.costs@;
                    self.update_ring(lt, d, true);
                    proof {
                        assert forall|t: int| 0 <= t < j + 1 && r.spec_contains(#[trigger] srcs@[t])
                            implies self.costs@[PathRange::index_of(r, srcs@[t])] == 1 by {
                            lemma_index_of_bounds(r, srcs@[t]);
                            assert(before[PathRange::index_of(r, srcs@[t])] == 1);
                        }
                        assert forall|t: int, p: Point|
                            0 <= t < j && r.spec_contains(srcs@[t]) && reaches_one(lt, srcs@[t]) && r.spec_contains(p)
                                && #[trigger] cheb(p, srcs@[t]) == 1 implies lit_from_src(lt, self.costs@, r, srcs@[t], p) by {
                            lemma_index_of_bounds(r, p);
                            assert(lit_from_src(lt, before, r, srcs@[t], p));
                            lemma_lit_from_src_keep(lt, before, self.costs@, r, srcs@[t], p);
                        }
                        assert forall|p: Point| r.spec_contains(p) && #[trigger] cheb(p, src) == 1 implies lit_from_src(
                            lt,
                            self.costs@,
                            r,
                            src,
                            p,
                        ) by {
                            lemma_index_of_bounds(r, p);
                            if d > 1 {
                                assert(lit_from_src(lt, before, r, src, p));
                                lemma_lit_from_src_keep(lt, before, self.costs@, r, src, p);
                            } else {
                                assert(before[PathRange::index_of(r, src)] == 1);
                            }
                        }
                    }
                    d = d + 1;
                }
                proof {
                    if reaches_one(lt, src) {
                        assert(max_cost >= 1);
                        assert(r.spec_width() >= 1 && r.spec_height() >= 1);
                        assert(dmax >= 1);
                        assert(d > 1);
                    }
                    assert forall|t: int, p: Point|
                        0 <= t < j + 1 && r.spec_contains(srcs@[t]) && reaches_one(lt, srcs@[t]) && r.spec_contains(p)
                            && #[trigger] cheb(p, srcs@[t]) == 1 implies lit_from_src(lt, self.costs@, r, srcs@[t], p) by {
                        if t == j {
                            assert(srcs@[t] == src);
                        }
                    }
                }
            }
            j = j + 1;
        }
        self.compute_lighted();
        proof {
            assert forall|t: int| 0 <= t < srcs@.len() && r.spec_contains(#[trigger] srcs@[t])
                implies self.cost_at(srcs@[t]) == Some(0i32) by {
                lemma_index_of_bounds(r, srcs@[t]);
            }
            assert forall|t: int, p: Point|
                0 <= t < srcs@.len() && r.spec_contains(srcs@[t]) && reaches_one(lt, srcs@[t]) && r.spec_contains(p)
                    && #[trigger] cheb(p, srcs@[t]) == 1 implies exists|e: i32|
                    #[trigger] call_ensures(L::cost, (lt, srcs@[t], srcs@[t], p), e) && (0 <= e < i32::MAX - 1
                        ==> (self.cost_at(p) matches Some(c) && c <= e)) by {
                lemma_index_of_bounds(r, p);
                assert(lit_from_src(lt, self.costs@, r, srcs@[t], p));
                let e = choose|e: i32|
                    #[trigger] call_ensures(L::cost, (lt, srcs@[t], srcs@[t], p), e) && (0 <= e < i32::MAX - 1 ==> 0
                        < self.costs@[PathRange::index_of(r, p)] <= e + 1);
                assert(call_ensures(L::cost, (lt, srcs@[t], srcs@[t], p), e));
            }
        }
        self.lighted.as_slice()
    }

    /// List the lit cells of the cost map, row by row.
    fn compute_lighted(&mut self)
        requires
            old(self).wf(),
            old(self).costs@.len() >= old(self).range.spec_len(),
        ensures
            final(self).wf(),
            final(self).range == old(self).range,
            final(self).costs == old(self).costs,
            final(self).src == old(self).src,
            final(self).shadow_casting == old(self).shadow_casting,
            final(self).visibles == old(self).visibles,
            forall|k: int| 0 <= k < final(self).lighted@.len() ==> final(self).range.spec_contains(
                #[trigger] final(self).lighted@[k].pos,
            ) && final(self).cost_at(final(self).lighted@[k].pos) == Some(final(self).lighted@[k].cost),
            forall|p: Point| final(self).range.spec_contains(p) && (#[trigger] final(self).cost_at(p)) is Some
                ==> exists|k: int| 0 <= k < final(self).lighted@.len() && final(self).lighted@[k].pos == p,
    {
        self.lighted.clear();
        let ghost r = self.range;
        let w: i32 = self.range.width();
        let h: i32 = self.range.height();
        let mut y: i32 = 0;
        while y < h
            invariant
                self.wf(),
                self.range == r,
                self.costs == old(self).costs,
                self.src == old(self).src,
                self.shadow_casting == old(self).shadow_casting,
                self.visibles == old(self).visibles,
                self.costs@.len() >= r.spec_len(),
                w == r.spec_width(),
                h == r.spec_height(),
                0 <= y <= h,
                forall|k: int| 0 <= k < self.lighted@.len() ==> r.spec_contains(#[trigger] self.lighted@[k].pos)
                    && self.cost_at(self.lighted@[k].pos) == Some(self.lighted@[k].cost),
                forall|p: Point| p.y < r.min.y + y && #[trigger] lit(self.costs@, r, p)
                    ==> exists|k: int| 0 <= k < self.lighted@.len() && self.lighted@[k].pos == p,
            decreases h - y,
        {
            let mut x: i32 = 0;
            while x < w
                invariant
                    self.wf(),
                    self.range == r,
                    self.costs == old(self).costs,
                    self.src == old(self).src,
                    self.shadow_casting == old(self).shadow_casting,
                    self.visibles == old(self).visibles,
                    self.costs@.len() >= r.spec_len(),
                    w == r.spec_width(),
                    h == r.spec_height(),
                    0 <= y < h,
                    0 <= x <= w,
                    forall|k: int| 0 <= k < self.lighted@.len() ==> r.spec_contains(#[trigger] self.lighted@[k].pos)
                        && self.cost_at(self.lighted@[k].pos) == Some(self.lighted@[k].cost),
                    forall|p: Point| (p.y < r.min.y + y || (p.y == r.min.y + y && p.x < r.min.x + x))
                        && #[trigger] lit(self.costs@, r, p)
                        ==> exists|k: int| 0 <= k < self.lighted@.len() && self.lighted@[k].pos == p,
                decreases w - x,
            {
                let p = Point::new(x + self.range.min.x, y + self.range.min.y);
                let i = self.idx(p);
                let c: i32 = self.costs[i];
                if c > 0 {
                    let ghost l0 = self.lighted@;
                    self.lighted.push(LightNode { pos: p, cost: c - 1 });
                    proof {
                        assert forall|q: Point| (q.y < r.min.y + y || (q.y == r.min.y + y && q.x < r.min.x + x + 1))
                            && #[trigger] lit(self.costs@, r, q)
                            implies exists|k: int| 0 <= k < self.lighted@.len() && self.lighted@[k].pos == q by {
                            if q == p {
                                assert(self.lighted@[l0.len() as int].pos == q);
                            } else {
                                assert(lit(self.costs@, r, q));
                                let k = choose|k: int| 0 <= k < l0.len() && l0[k].pos == q;
                                assert(self.lighted@[k].pos == q);
                            }
                        }
                    }
                }
                x = x + 1;
            }
            y = y + 1;
        }
        proof {
            assert forall|p: Point| r.spec_contains(p) && (#[trigger] self.cost_at(p)) is Some
                implies exists|k: int| 0 <= k < self.lighted@.len() && self.lighted@[k].pos == p by {
                assert(lit(self.costs@, r, p));
            }
        }
    }

    /// The previous position on the light ray to `to` from the last
    /// `vision_map`, with the accumulated cost there plus the last step's;
    /// `None` if `to` was not reached or has no lit parent.
    pub fn from<L: Lighter>(&self, lt: &L, to: Point) -> (res: Option<LightNode>)
        requires
            self.wf(),
            self.spec_range().spec_contains(self.spec_src()),
        ensures
            self.cost_at(to) is None ==> res is None,
            !self.has_lit_parent(to) ==> res is None,
            res matches Some(n) ==> self.spec_range().spec_contains(n.pos) && near(n.pos, to)
                && self.is_lit_parent(n.pos, to),
    {
        if self.at(to).is_none() {
            return None;
        }
        let (ln, _found) = self.from_internal(lt, to);
        if ln.cost == 0 {
            return None;
        }
        Some(LightNode { pos: ln.pos, cost: ln.cost - 1 })
    }

    /// The full light ray from the source of the last `vision_map` to
    /// `to`: it starts at the source with cost 0, ends at `to`, and each
    /// step is one king's move. `None` if `to` was not reached, or if a
    /// cell on the way has no lit parent (which a ray of the last
    /// `vision_map` never meets).
    pub fn ray<L: Lighter>(&mut self, lt: &L, to: Point) -> (res: Option<&[LightNode]>)
        requires
            old(self).wf(),
            old(self).spec_range().spec_contains(old(self).spec_src()),
        ensures
            final(self).wf(),
            final(self).spec_range() == old(self).spec_range(),
            final(self).spec_src() == old(self).spec_src(),
            old(self).cost_at(to) is None ==> res is None,
            old(self).cost_at(to) is Some && old(self).rays_closed() ==> res is Some,
            res matches Some(v) ==> {
                &&& v@.len() == cheb(to, old(self).spec_src()) + 1
                &&& v@[0] == (LightNode { pos: old(self).spec_src(), cost: 0 })
                &&& v@.last().pos == to
                &&& forall|k: int| 0 <= k < v@.len() ==> old(self).spec_range().spec_contains(#[trigger] v@[k].pos)
                &&& forall|k: int| 0 <= k < v@.len() - 1 ==> near(#[trigger] v@[k].pos, v@[k + 1].pos)
                &&& forall|k: int| 0 <= k < v@.len() - 1 ==> old(self).is_lit_parent(#[trigger] v@[k].pos, v@[k + 1].pos)
            },
    {
        if self.at(to).is_none() {
            return None;
        }
        let src = self.src;
        let mut back: Vec<LightNode> = Vec::new();
        let mut cur = to;
        while cur != src
            invariant
                self.wf(),
                self.range.spec_contains(src),
                self.src == src,
                self.range.spec_contains(cur),
                self.costs@.len() > 0,
                self.costs@.len() >= self.range.spec_len(),
                self == old(self),
                self.cost_at(cur) is Some,
                back@.len() + cheb(cur, src) == cheb(to, src),
                back@.len() >= 1 ==> back@[0].pos == to,
                back@.len() == 0 ==> cur == to,
                back@.len() >= 1 ==> near(back@.last().pos, cur),
                forall|k: int| 0 <= k < back@.len() ==> self.range.spec_contains(#[trigger] back@[k].pos),
                forall|k: int| 0 <= k < back@.len() - 1 ==> near(#[trigger] back@[k].pos, back@[k + 1].pos),
                forall|k: int| 0 <= k < back@.len() - 1 ==> self.is_lit_parent(#[trigger] back@[k + 1].pos, back@[k].pos),
                back@.len() >= 1 ==> self.is_lit_parent(cur, back@.last().pos),
            decreases cheb(cur, src),
        {
            let (n, found) = self.from_internal(lt, cur);
            if !found {
                proof {
                    if old(self).rays_closed() {
                        assert(self.cost_at(cur) is Some);
                        assert(self.has_lit_parent(cur));
                    }
                }
                return None;
            }
            let ghost b0 = back@;
            back.push(LightNode { pos: cur, cost: n.cost - 1 });
            proof {
                assert forall|k: int| 0 <= k < back@.len() - 1 implies near(#[trigger] back@[k].pos, back@[k + 1].pos) by {
                    if k < b0.len() - 1 {
                        assert(back@[k] == b0[k] && back@[k + 1] == b0[k + 1]);
                    }
                }
                assert forall|k: int| 0 <= k < back@.len() - 1 implies self.is_lit_parent(#[trigger] back@[k + 1].pos, back@[k].pos) by {
                    if k < b0.len() - 1 {
                        assert(back@[k] == b0[k] && back@[k + 1] == b0[k + 1]);
                    } else {
                        assert(back@[k] == b0[k] && back@[k + 1].pos == cur);
                    }
                }
            }
            cur = n.pos;
        }
        let ghost b1 = back@;
        back.push(LightNode { pos: src, cost: 0 });
        proof {
            assert forall|k: int| 0 <= k < back@.len() - 1 implies near(#[trigger] back@[k].pos, back@[k + 1].pos) by {
                if k < b1.len() - 1 {
                    assert(back@[k] == b1[k] && back@[k + 1] == b1[k + 1]);
                }
            }
            assert forall|k: int| 0 <= k < back@.len() - 1 implies self.is_lit_parent(#[trigger] back@[k + 1].pos, back@[k].pos) by {
                if k < b1.len() - 1 {
                    assert(back@[k] == b1[k] && back@[k + 1] == b1[k + 1]);
                } else {
                    assert(back@[k] == b1[k] && back@[k + 1].pos == src);
                }
            }
        }
        let mut out: Vec<LightNode> = Vec::new();
        let mut j: usize = back.len();
        while j > 0
            invariant
                j <= back@.len(),
                back@.len() >= 1,
                out@.len() == back@.len() - j,
                forall|k: int| 0 <= k < out@.len() ==> #[trigger] out@[k] == back@[back@.len() - 1 - k],
            decreases j,
        {
            j = j - 1;
            out.push(back[j]);
        }
        proof {
            assert forall|k: int| 0 <= k < out@.len() - 1 implies near(#[trigger] out@[k].pos, out@[k + 1].pos) by {
                let a = back@.len() - 1 - k;
                assert(out@[k] == back@[a]);
                assert(out@[k + 1] == back@[a - 1]);
                assert(near(back@[a - 1].pos, back@[a].pos));
            }
            assert forall|k: int| 0 <= k < out@.len() implies self.range.spec_contains(#[trigger] out@[k].pos) by {
                assert(out@[k] == back@[back@.len() - 1 - k]);
            }
            assert forall|k: int| 0 <= k < out@.len() - 1 implies self.is_lit_parent(#[trigger] out@[k].pos, out@[k + 1].pos) by {
                let a = back@.len() - 1 - k;
                assert(out@[k] == back@[a]);
                assert(out@[k + 1] == back@[a - 1]);
                assert(self.is_lit_parent(back@[a].pos, back@[a - 1].pos));
            }
        }
        self.ray_cache = out;
        Some(self.ray_cache.as_slice())
    }
}


/// A quadrant of the shadow casting: the direction it looks in (north,
/// east, south, west for 0 to 3) and its origin.
#[derive(Debug, Clone, Copy)]
struct Quadrant {
    dir: i32,
    p: Point,
}

/// The point of a quadrant's tile (depth, column), as a spec value.
pub open spec fn quad_point(dir: i32, p: Point, tile: Point) -> Point {
    if dir == 0 {
        pt(p.x + tile.y, p.y - tile.x)
    } else if dir == 1 {
        pt(p.x + tile.x, p.y + tile.y)
    } else if dir == 2 {
        pt(p.x + tile.y, p.y + tile.x)
    } else {
        pt(p.x - tile.x, p.y + tile.y)
    }
}

/// The columns of a quadrant inside the range, as a spec value.
pub open spec fn quad_cols(dir: i32, p: Point, r: Range) -> (int, int) {
    if dir == 0 || dir == 2 {
        (-(p.x - r.min.x), r.max.x - p.x - 1)
    } else {
        (-(p.y - r.min.y), r.max.y - p.y - 1)
    }
}

/// The depth of a quadrant inside the range, as a spec value.
pub open spec fn quad_depth(dir: i32, p: Point, r: Range) -> int {
    if dir == 0 {
        p.y - r.min.y
    } else if dir == 1 {
        r.max.x - p.x - 1
    } else if dir == 2 {
        r.max.y - p.y - 1
    } else {
        p.x - r.min.x
    }
}

/// A tile of bounded coordinates: one step beyond a row of the range on
/// each axis at most.
pub open spec fn small_tile(t: Point) -> bool {
    -fov_dim() - 2 <= t.x <= fov_dim() + 2 && -fov_dim() - 2 <= t.y <= fov_dim() + 2
}

/// The tiles of the range seen from a point of it land in the range.
proof fn lemma_quad_in_range(dir: i32, p: Point, r: Range, tile: Point)
    requires
        0 <= dir < 4,
        fov_ok(r),
        r.spec_contains(p),
        1 <= tile.x <= quad_depth(dir, p, r),
        quad_cols(dir, p, r).0 <= tile.y <= quad_cols(dir, p, r).1,
    ensures
        r.spec_contains(quad_point(dir, p, tile)),
{
}

impl Quadrant {
    fn transform(&self, tile: Point) -> (q: Point)
        requires
            0 <= self.dir < 4,
            small_point(self.p),
            small_tile(tile),
        ensures
            q == quad_point(self.dir, self.p, tile),
    {
        if self.dir == 0 {
            Point::new(self.p.x + tile.y, self.p.y - tile.x)
        } else if self.dir == 1 {
            Point::new(self.p.x + tile.x, self.p.y + tile.y)
        } else if self.dir == 2 {
            Point::new(self.p.x + tile.y, self.p.y + tile.x)
        } else {
            Point::new(self.p.x - tile.x, self.p.y + tile.y)
        }
    }

    fn max_cols(&self, r: Range) -> (c: (i32, i32))
        requires
            fov_ok(r),
            r.spec_contains(self.p),
        ensures
            c.0 == quad_cols(self.dir, self.p, r).0,
            c.1 == quad_cols(self.dir, self.p, r).1,
            -fov_dim() <= c.0 <= 0 <= c.1 <= fov_dim(),
    {
        if self.dir == 0 || self.dir == 2 {
            (-(self.p.x - r.min.x), r.max.x - self.p.x - 1)
        } else {
            (-(self.p.y - r.min.y), r.max.y - self.p.y - 1)
        }
    }

    fn max_depth(&self, r: Range) -> (d: i32)
        requires
            fov_ok(r),
            r.spec_contains(self.p),
        ensures
            d == quad_depth(self.dir, self.p, r),
            0 <= d <= fov_dim(),
    {
        if self.dir == 0 {
            self.p.y - r.min.y
        } else if self.dir == 1 {
            r.max.x - self.p.x - 1
        } else if self.dir == 2 {
            r.max.y - self.p.y - 1
        } else {
            self.p.x - r.min.x
        }
    }
}

/// A row of the shadow casting: its depth, and the start and end slopes
/// of the visible part as fractions (numerator, denominator).
#[derive(Debug, Clone, Copy)]
struct SscRow {
    depth: i32,
    slope_start: Point,
    slope_end: Point,
}

/// A slope whose parts stay small and whose denominator is positive.
pub open spec fn slope_ok(s: Point) -> bool {
    1 <= s.y <= 2 * fov_dim() + 3 && -2 * fov_dim() - 3 <= s.x <= 2 * fov_dim() + 3
}

/// A row of depth 1 to `dm` with well-formed slopes.
spec fn row_ok(r: SscRow, dm: int) -> bool {
    1 <= r.depth <= dm && dm <= fov_dim() && slope_ok(r.slope_start) && slope_ok(r.slope_end)
}

/// The number of rows a stack of rows may still give rise to, bounded by
/// powers of the branching factor `k` below depth `dm`.
spec fn row_weight(rows: Seq<SscRow>, k: int, dm: int) -> int
    decreases rows.len(),
{
    if rows.len() == 0 {
        0
    } else {
        row_weight(rows.drop_last(), k, dm) + pow(k, (dm - rows.last().depth) as nat)
    }
}

proof fn lemma_row_weight_push(rows: Seq<SscRow>, r: SscRow, k: int, dm: int)
    ensures
        row_weight(rows.push(r), k, dm) == row_weight(rows, k, dm) + pow(k, (dm - r.depth) as nat),
{
    assert(rows.push(r).drop_last() =~= rows);
}

proof fn lemma_row_weight_nonneg(rows: Seq<SscRow>, k: int, dm: int)
    requires
        k > 0,
    ensures
        row_weight(rows, k, dm) >= 0,
    decreases rows.len(),
{
    if rows.len() > 0 {
        lemma_row_weight_nonneg(rows.drop_last(), k, dm);
        vstd::arithmetic::power::lemma_pow_positive(k, (dm - rows.last().depth) as nat);
    }
}

/// `n / d` (with `d > 0`) rounded to the nearest integer, a half rounded
/// up when `up` holds and down otherwise.
pub open spec fn nearest_div(n: int, d: int, up: bool) -> int {
    if up {
        (2 * n + d) / (2 * d)
    } else {
        -((d - 2 * n) / (2 * d))
    }
}

/// `n / d` rounded to the nearest integer, halves rounded up at the start
/// of a row and down at its end, the way the row's bounds are rounded.
fn round_div(n: i32, d: i32, start: bool) -> (q: i32)
    requires
        d >= 1,
        -0x4000_0000 <= n <= 0x4000_0000,
        d <= 0x4000_0000,
    ensures
        q == nearest_div(n as int, d as int, start),
        -0x4000_0001 <= q <= 0x4000_0001,
        n >= 0 ==> q >= 0,
{
    let div: i32 = n / d;
    let rem: i32 = n % d;
    proof {
        if n >= 0 {
            assert(div == n as int / d as int && rem == n as int % d as int);
            assert(div * d + rem == n) by (nonlinear_arith)
                requires div == n as int / d as int, rem == n as int % d as int, d >= 1;
        } else {
            assert(div == -((-n) as int / d as int) && rem == -((-n) as int % d as int));
            assert(div * d + rem == n) by (nonlinear_arith)
                requires div == -((-n) as int / d as int), rem == -((-n) as int % d as int), d >= 1;
        }
        lemma_round_div(n as int, d as int, div as int, rem as int, start);
    }
    if rem > 0 {
        if start {
            if 2 * (rem as i64) >= d as i64 {
                div + 1
            } else {
                div
            }
        } else {
            if 2 * (rem as i64) > d as i64 {
                div + 1
            } else {
                div
            }
        }
    } else if rem < 0 {
        if start {
            if -2 * (rem as i64) > d as i64 {
                div - 1
            } else {
                div
            }
        } else {
            if -2 * (rem as i64) >= d as i64 {
                div - 1
            } else {
                div
            }
        }
    } else {
        div
    }
}

/// What the rounding by quotient `div` and remainder `rem` (Rust's
/// truncating division of `n` by `d`) gives, in terms of `nearest_div`.
proof fn lemma_round_div(n: int, d: int, div: int, rem: int, up: bool)
    requires
        d >= 1,
        n == div * d + rem,
        -d < rem < d,
        n >= 0 ==> rem >= 0,
        n < 0 ==> rem <= 0,
        -0x4000_0000 <= n <= 0x4000_0000,
    ensures
        up && rem > 0 && 2 * rem >= d ==> nearest_div(n, d, up) == div + 1,
        up && rem > 0 && 2 * rem < d ==> nearest_div(n, d, up) == div,
        !up && rem > 0 && 2 * rem > d ==> nearest_div(n, d, up) == div + 1,
        !up && rem > 0 && 2 * rem <= d ==> nearest_div(n, d, up) == div,
        up && rem < 0 && -2 * rem > d ==> nearest_div(n, d, up) == div - 1,
        up && rem < 0 && -2 * rem <= d ==> nearest_div(n, d, up) == div,
        !up && rem < 0 && -2 * rem >= d ==> nearest_div(n, d, up) == div - 1,
        !up && rem < 0 && -2 * rem < d ==> nearest_div(n, d, up) == div,
        rem == 0 ==> nearest_div(n, d, up) == div,
{
    let dd = 2 * d;
    if up {
        let x = 2 * n + d;
        if rem > 0 && 2 * rem >= d {
            assert(x == (div + 1) * dd + (2 * rem - d)) by (nonlinear_arith)
                requires x == 2 * n + d, n == div * d + rem, dd == 2 * d;
            lemma_fundamental_div_mod_converse(x, dd, div + 1, 2 * rem - d);
        } else if rem > 0 || rem == 0 {
            assert(x == div * dd + (2 * rem + d)) by (nonlinear_arith)
                requires x == 2 * n + d, n == div * d + rem, dd == 2 * d;
            lemma_fundamental_div_mod_converse(x, dd, div, 2 * rem + d);
        } else if -2 * rem > d {
            assert(x == (div - 1) * dd + (2 * rem + 3 * d)) by (nonlinear_arith)
                requires x == 2 * n + d, n == div * d + rem, dd == 2 * d;
            lemma_fundamental_div_mod_converse(x, dd, div - 1, 2 * rem + 3 * d);
        } else {
            assert(x == div * dd + (2 * rem + d)) by (nonlinear_arith)
                requires x == 2 * n + d, n == div * d + rem, dd == 2 * d;
            lemma_fundamental_div_mod_converse(x, dd, div, 2 * rem + d);
        }
    } else {
        let x = d - 2 * n;
        if rem > 0 && 2 * rem > d {
            assert(x == (-div - 1) * dd + (3 * d - 2 * rem)) by (nonlinear_arith)
                requires x == d - 2 * n, n == div * d + rem, dd == 2 * d;
            lemma_fundamental_div_mod_converse(x, dd, -div - 1, 3 * d - 2 * rem);
        } else if rem < 0 && -2 * rem >= d {
            assert(x == (-div + 1) * dd + (-d - 2 * rem)) by (nonlinear_arith)
                requires x == d - 2 * n, n == div * d + rem, dd == 2 * d;
            lemma_fundamental_div_mod_converse(x, dd, -div + 1, -d - 2 * rem);
        } else {
            assert(x == (-div) * dd + (d - 2 * rem)) by (nonlinear_arith)
                requires x == d - 2 * n, n == div * d + rem, dd == 2 * d;
            lemma_fundamental_div_mod_converse(x, dd, -div, d - 2 * rem);
        }
    }
}

/// The tiles of row `r` from its start slope to its end slope, the bounds
/// rounded to the nearest column (a half inward), clamped to
/// `colmin..=colmax`, in column order.
spec fn row_tiles(r: SscRow, colmin: int, colmax: int) -> Seq<Point> {
    let lo = max_int(nearest_div(r.depth * r.slope_start.x, r.slope_start.y as int, true), colmin);
    let hi = min_int(nearest_div(r.depth * r.slope_end.x, r.slope_end.y as int, false), colmax);
    Seq::new(if hi >= lo { (hi - lo + 1) as nat } else { 0 }, |i: int| pt(r.depth as int, lo + i))
}

impl SscRow {
    /// The tiles of the row between its slopes, clamped to the columns
    /// `colmin..=colmax`, appended to `ts` in column order.
    fn tiles(&self, ts: &mut Vec<Point>, colmin: i32, colmax: i32, Ghost(dm): Ghost<int>)
        requires
            row_ok(*self, dm),
            -fov_dim() <= colmin <= 0 <= colmax <= fov_dim(),
        ensures
            final(ts)@.len() <= old(ts)@.len() + colmax - colmin + 1,
            final(ts)@.len() >= old(ts)@.len(),
            forall|k: int| 0 <= k < old(ts)@.len() ==> #[trigger] final(ts)@[k] == old(ts)@[k],
            forall|k: int| old(ts)@.len() <= k < final(ts)@.len() ==> (#[trigger] final(ts)@[k]).x == self.depth
                && colmin <= final(ts)@[k].y <= colmax,
            final(ts)@ == old(ts)@ + row_tiles(*self, colmin as int, colmax as int),
    {
        let depth: i32 = self.depth;
        proof {
            assert(-0x4000_0000 <= depth * self.slope_start.x <= 0x4000_0000) by (nonlinear_arith)
                requires
                    1 <= depth <= fov_dim(),
                    -2 * fov_dim() - 3 <= self.slope_start.x <= 2 * fov_dim() + 3,
            ;
            assert(-0x4000_0000 <= depth * self.slope_end.x <= 0x4000_0000) by (nonlinear_arith)
                requires
                    1 <= depth <= fov_dim(),
                    -2 * fov_dim() - 3 <= self.slope_end.x <= 2 * fov_dim() + 3,
            ;
        }
        let mut min: i32 = round_div(depth * self.slope_start.x, self.slope_start.y, true);
        let mut max: i32 = round_div(depth * self.slope_end.x, self.slope_end.y, false);
        if min < colmin {
            min = colmin;
        }
        if max > colmax {
            max = colmax;
        }
        let ghost n0 = ts@.len();
        let mut col: i32 = min;
        while col <= max
            invariant
                colmin <= min,
                max <= colmax,
                colmax <= fov_dim(),
                min <= col,
                col <= max + 1 || col == min,
                ts@.len() == n0 + (col - min),
                n0 == old(ts)@.len(),
                forall|k: int| 0 <= k < n0 ==> #[trigger] ts@[k] == old(ts)@[k],
                forall|k: int| n0 <= k < ts@.len() ==> (#[trigger] ts@[k]).x == depth && colmin <= ts@[k].y <= colmax,
                ts@ == old(ts)@ + Seq::new((col - min) as nat, |i: int| pt(depth as int, min + i)),
            decreases max + 1 - col,
        {
            let p = Point::new(depth, col);
            ts.push(p);
            proof {
                assert(Seq::new((col + 1 - min) as nat, |i: int| pt(depth as int, min + i))
                    =~= Seq::new((col - min) as nat, |i: int| pt(depth as int, min + i)).push(p));
            }
            col = col + 1;
        }
        proof {
            assert(Seq::new((col - min) as nat, |i: int| pt(depth as int, min + i))
                =~= row_tiles(*self, colmin as int, colmax as int));
        }
    }

    fn next(self) -> (r: SscRow)
        requires
            self.depth < i32::MAX,
        ensures
            r.depth == self.depth + 1,
            r.slope_start == self.slope_start,
            r.slope_end == self.slope_end,
    {
        SscRow { depth: self.depth + 1, slope_start: self.slope_start, slope_end: self.slope_end }
    }

    fn is_symmetric(&self, tile: Point, Ghost(dm): Ghost<int>) -> (b: bool)
        requires
            row_ok(*self, dm),
            -fov_dim() <= tile.y <= fov_dim(),
        ensures
            b == (tile.y * self.slope_start.y >= self.depth * self.slope_start.x
                && tile.y * self.slope_end.y <= self.depth * self.slope_end.x),
    {
        let col: i32 = tile.y;
        proof {
            assert(-0x4000_0000 <= col * self.slope_start.y <= 0x4000_0000) by (nonlinear_arith)
                requires
                    -fov_dim() <= col <= fov_dim(),
                    1 <= self.slope_start.y <= 2 * fov_dim() + 3,
            ;
            assert(-0x4000_0000 <= col * self.slope_end.y <= 0x4000_0000) by (nonlinear_arith)
                requires
                    -fov_dim() <= col <= fov_dim(),
                    1 <= self.slope_end.y <= 2 * fov_dim() + 3,
            ;
            assert(-0x4000_0000 <= self.depth * self.slope_start.x <= 0x4000_0000) by (nonlinear_arith)
                requires
                    1 <= self.depth <= fov_dim(),
                    -2 * fov_dim() - 3 <= self.slope_start.x <= 2 * fov_dim() + 3,
            ;
            assert(-0x4000_0000 <= self.depth * self.slope_end.x <= 0x4000_0000) by (nonlinear_arith)
                requires
                    1 <= self.depth <= fov_dim(),
                    -2 * fov_dim() - 3 <= self.slope_end.x <= 2 * fov_dim() + 3,
            ;
        }
        col * self.slope_start.y >= self.depth * self.slope_start.x
            && col * self.slope_end.y <= self.depth * self.slope_end.x
    }
}

/// The slope through the diamond-shaped corner of a tile.
fn slope_diamond(tile: Point) -> (s: Point)
    requires
        1 <= tile.x <= fov_dim(),
        -fov_dim() - 1 <= tile.y <= fov_dim() + 1,
    ensures
        s == pt(2 * tile.y - 1, 2 * tile.x),
        slope_ok(s),
{
    Point::new(2 * tile.y - 1, 2 * tile.x)
}

/// The slope through the square corner of a tile.
fn slope_square(tile: Point) -> (s: Point)
    requires
        1 <= tile.x <= fov_dim(),
        -fov_dim() - 1 <= tile.y <= fov_dim() + 1,
    ensures
        s == pt(2 * tile.y - 1, 2 * tile.x + 1),
        slope_ok(s),
{
    Point::new(2 * tile.y - 1, 2 * tile.x + 1)
}


/// The visibility map and the list of visible points agree: the list
/// holds each marked cell of the range once, and only those.
pub open spec fn vis_inv(r: Range, sc: Seq<bool>, vis: Seq<Point>) -> bool {
    &&& sc.len() >= r.spec_len()
    &&& forall|k: int| 0 <= k < vis.len() ==> r.spec_contains(#[trigger] vis[k]) && sc[PathRange::index_of(r, vis[k])]
    &&& forall|a: int, b: int| 0 <= a < b < vis.len() ==> #[trigger] vis[a] != #[trigger] vis[b]
    &&& forall|p: Point| r.spec_contains(p) && #[trigger] sc[PathRange::index_of(r, p)] ==> vis.contains(p)
}

impl FOV {
    /// Mark `p` visible, listing it if it was not yet.
    fn reveal_point(&mut self, p: Point)
        requires
            fov_ok(old(self).range),
            old(self).range.spec_contains(p),
            vis_inv(old(self).range, old(self).shadow_casting@, old(self).visibles@),
        ensures
            vis_inv(final(self).range, final(self).shadow_casting@, final(self).visibles@),
            final(self).range == old(self).range,
            final(self).capacity == old(self).capacity,
            final(self).costs == old(self).costs,
            final(self).lighted == old(self).lighted,
            final(self).src == old(self).src,
            final(self).ray_cache == old(self).ray_cache,
            final(self).shadow_casting@.len() == old(self).shadow_casting@.len(),
            final(self).shadow_casting@[PathRange::index_of(final(self).range, p)],
            forall|i: int| 0 <= i < old(self).shadow_casting@.len() && old(self).shadow_casting@[i]
                ==> #[trigger] final(self).shadow_casting@[i],
            old(self).visibles@.len() == 0 ==> final(self).visibles@ == seq![p],
            old(self).visibles@.len() >= 1 ==> final(self).visibles@.len() >= 1 && final(self).visibles@[0]
                == old(self).visibles@[0],
    {
        let ghost r = self.range;
        let i = self.idx(p);
        proof {
            if self.visibles@.len() == 0 && self.shadow_casting@[i as int] {
                assert(self.visibles@.contains(p));
            }
        }
        if !self.shadow_casting[i] {
            let ghost v0 = self.visibles@;
            let ghost s0 = self.shadow_casting@;
            self.shadow_casting.set(i, true);
            self.visibles.push(p);
            proof {
                assert forall|k: int| 0 <= k < self.visibles@.len() implies r.spec_contains(#[trigger] self.visibles@[k])
                    && self.shadow_casting@[PathRange::index_of(r, self.visibles@[k])] by {
                    if k < v0.len() {
                        assert(self.visibles@[k] == v0[k]);
                        lemma_index_of_bounds(r, v0[k]);
                    }
                }
                assert forall|a: int, b: int| 0 <= a < b < self.visibles@.len() implies #[trigger] self.visibles@[a]
                    != #[trigger] self.visibles@[b] by {
                    if b == v0.len() {
                        assert(self.visibles@[a] == v0[a]);
                        assert(s0[PathRange::index_of(r, v0[a])]);
                    } else {
                        assert(self.visibles@[a] == v0[a] && self.visibles@[b] == v0[b]);
                    }
                }
                assert forall|q: Point| r.spec_contains(q) && #[trigger] self.shadow_casting@[PathRange::index_of(r, q)]
                    implies self.visibles@.contains(q) by {
                    lemma_index_of_bounds(r, q);
                    if q == p {
                        assert(self.visibles@[v0.len() as int] == q);
                    } else {
                        if PathRange::index_of(r, q) == i {
                            lemma_index_injective(r, q, p);
                        }
                        assert(s0[PathRange::index_of(r, q)]);
                        let k = choose|k: int| 0 <= k < v0.len() && v0[k] == q;
                        assert(self.visibles@[k] == q);
                    }
                }
            }
        }
    }

    /// Cast shadows over one quadrant from `src`, row by row outward up to
    /// `max_depth`, revealing what is seen.
    fn ssc_quadrant<F: Fn(Point) -> bool>(&mut self, src: Point, max_depth: i32, dir: i32, passable: &F, diags: bool)
        requires
            fov_ok(old(self).range),
            old(self).range.spec_contains(src),
            0 <= dir < 4,
            max_depth >= 0 || quad_depth(dir, src, old(self).range) >= 1,
            vis_inv(old(self).range, old(self).shadow_casting@, old(self).visibles@),
            forall|q: Point| passable.requires((q,)),
        ensures
            vis_inv(final(self).range, final(self).shadow_casting@, final(self).visibles@),
            final(self).range == old(self).range,
            final(self).capacity == old(self).capacity,
            final(self).costs == old(self).costs,
            final(self).lighted == old(self).lighted,
            final(self).src == old(self).src,
            final(self).ray_cache == old(self).ray_cache,
            final(self).shadow_casting@.len() == old(self).shadow_casting@.len(),
            forall|i: int| 0 <= i < old(self).shadow_casting@.len() && old(self).shadow_casting@[i]
                ==> #[trigger] final(self).shadow_casting@[i],
            quad_depth(dir, src, old(self).range) >= 1 && max_depth != 0 ==> final(self).shadow_casting@[PathRange::index_of(
                old(self).range,
                quad_point(dir, src, pt(1, 0)),
            )],
            old(self).visibles@.len() >= 1 ==> final(self).visibles@.len() >= 1 && final(self).visibles@[0]
                == old(self).visibles@[0],
    {
        let ghost r = self.range;
        let ghost sc0 = self.shadow_casting@;
        let ghost ti0 = PathRange::index_of(r, quad_point(dir, src, pt(1, 0)));
        let qt = Quadrant { dir, p: src };
        let (colmin, colmax) = qt.max_cols(self.range);
        let md: i32 = qt.max_depth(self.range);
        let mut dmax: i32 = md;
        if dmax > max_depth {
            dmax = max_depth;
        }
        if dmax == 0 {
            return;
        }
        let ghost dm: int = if dmax >= 1 { dmax as int } else { 1 };
        let ghost kk: int = colmax - colmin + 2;
        let mut rows: Vec<SscRow> = Vec::new();
        let init = SscRow { depth: 1, slope_start: Point::new(-1, 1), slope_end: Point::new(1, 1) };
        rows.push(init);
        let ghost mut seed_done: bool = false;
        proof {
            lemma_row_weight_nonneg(rows@, kk, dm);
            lemma_quad_in_range(dir, src, r, pt(1, 0));
            lemma_index_of_bounds(r, quad_point(dir, src, pt(1, 0)));
        }
        loop
            invariant
                !seed_done ==> rows@ == seq![init],
                old(self).visibles@.len() >= 1 ==> self.visibles@.len() >= 1 && self.visibles@[0]
                    == old(self).visibles@[0],
                init.depth == 1 && init.slope_start.x == -1 && init.slope_start.y == 1 && init.slope_end.x == 1 && init.slope_end.y == 1,
                seed_done ==> self.shadow_casting@[ti0],
                ti0 == PathRange::index_of(r, quad_point(dir, src, pt(1, 0))),
                0 <= ti0 < r.spec_len(),
                fov_ok(r),
                self.range == r,
                r.spec_contains(src),
                qt.dir == dir,
                qt.p == src,
                0 <= dir < 4,
                colmin == quad_cols(dir, src, r).0,
                colmax == quad_cols(dir, src, r).1,
                -fov_dim() <= colmin <= 0 <= colmax <= fov_dim(),
                md == quad_depth(dir, src, r),
                dmax <= md,
                dm == (if dmax >= 1 { dmax as int } else { 1 }),
                1 <= dm <= md,
                kk == colmax - colmin + 2,
                forall|k: int| 0 <= k < rows@.len() ==> row_ok(#[trigger] rows@[k], dm),
                vis_inv(r, self.shadow_casting@, self.visibles@),
                self.capacity == old(self).capacity,
                self.costs == old(self).costs,
                self.lighted == old(self).lighted,
                self.src == old(self).src,
                self.ray_cache == old(self).ray_cache,
                self.shadow_casting@.len() == sc0.len(),
                sc0 == old(self).shadow_casting@,
                forall|i: int| 0 <= i < sc0.len() && sc0[i] ==> #[trigger] self.shadow_casting@[i],
                forall|q: Point| passable.requires((q,)),
            ensures
                seed_done,
            decreases row_weight(rows@, kk, dm),
        {
            let ghost rows0 = rows@;
            let mut row = match rows.pop() {
                Some(x) => x,
                None => {
                    proof {
                        if !seed_done {
                            assert(rows0.len() == 1);
                        }
                    }
                    break;
                },
            };
            let ghost rest = rows@;
            let ghost d: int = row.depth as int;
            proof {
                assert(rows0 == rest.push(row));
                lemma_row_weight_push(rest, row, kk, dm);
                lemma_row_weight_nonneg(rest, kk, dm);
            }
            let ghost pw: int = if d < dm { pow(kk, (dm - d - 1) as nat) } else { 0 };
            proof {
                if d < dm {
                    reveal(pow);
                    vstd::arithmetic::power::lemma_pow_positive(kk, (dm - d - 1) as nat);
                    let e: nat = (dm - d) as nat;
                    assert((e - 1) as nat == (dm - d - 1) as nat);
                    assert(pow(kk, e) == kk * pow(kk, (e - 1) as nat));
                    assert(pow(kk, (dm - d) as nat) == kk * pw);
                }
            }
            let ghost first: bool = !seed_done;
            let ghost j0: int = -max_int(-1, colmin as int);
            proof {
                if first {
                    assert(rows0 == seq![init]);
                    assert(row == init);
                }
            }
            let mut ts: Vec<Point> = Vec::new();
            row.tiles(&mut ts, colmin, colmax, Ghost(dm));
            proof {
                if first {
                    lemma_fundamental_div_mod_converse(-1, 2, -1, 1);
                    assert(nearest_div(-1, 1, true) == -1);
                    assert(nearest_div(1, 1, false) == 1);
                    assert(ts@ == row_tiles(init, colmin as int, colmax as int));
                    let lo = max_int(-1, colmin as int);
                    let hi = min_int(1, colmax as int);
                    assert(lo == max_int(nearest_div(init.depth * init.slope_start.x, init.slope_start.y as int, true), colmin as int));
                    assert(hi == min_int(nearest_div(init.depth * init.slope_end.x, init.slope_end.y as int, false), colmax as int));
                    assert(ts@.len() == hi - lo + 1);
                    assert(ts@[j0] == pt(1, lo + j0));
                    assert(ts@[j0].x == 1 && ts@[j0].y == 0);
                }
            }
            let mut ptile: Option<Point> = None;
            let ghost mut m: int = 0;
            let mut ti: usize = 0;
            while ti < ts.len()
                invariant
                    first == !seed_done,
                    old(self).visibles@.len() >= 1 ==> self.visibles@.len() >= 1 && self.visibles@[0]
                        == old(self).visibles@[0],
                    first ==> 0 <= j0 < ts@.len() && ts@[j0].x == 1 && ts@[j0].y == 0,
                    0 <= j0 <= 1,
                    0 <= ti0 < r.spec_len(),
                    first && ti <= j0 ==> row == init,
                    first && ti > j0 ==> self.shadow_casting@[ti0],
                    seed_done ==> self.shadow_casting@[ti0],
                    init.depth == 1 && init.slope_start.x == -1 && init.slope_start.y == 1 && init.slope_end.x == 1 && init.slope_end.y == 1,
                    ti0 == PathRange::index_of(r, quad_point(dir, src, pt(1, 0))),
                    fov_ok(r),
                    self.range == r,
                    r.spec_contains(src),
                    qt.dir == dir,
                    qt.p == src,
                    0 <= dir < 4,
                    colmin == quad_cols(dir, src, r).0,
                    colmax == quad_cols(dir, src, r).1,
                    -fov_dim() <= colmin <= 0 <= colmax <= fov_dim(),
                    md == quad_depth(dir, src, r),
                    dmax <= md,
                    dm == (if dmax >= 1 { dmax as int } else { 1 }),
                    1 <= dm <= md,
                    kk == colmax - colmin + 2,
                    row_ok(row, dm),
                    row.depth == d,
                    ts@.len() <= colmax - colmin + 1,
                    forall|k: int| 0 <= k < ts@.len() ==> (#[trigger] ts@[k]).x == d && colmin <= ts@[k].y <= colmax,
                    ti <= ts@.len(),
                    ti == 0 <==> ptile is None,
                    ptile matches Some(pp) ==> pp == ts@[ti - 1],
                    forall|k: int| 0 <= k < rows@.len() ==> row_ok(#[trigger] rows@[k], dm),
                    forall|k: int| 0 <= k < rest.len() ==> row_ok(#[trigger] rest[k], dm),
                    0 <= m,
                    ti == 0 ==> m == 0,
                    ti > 0 ==> m <= ti - 1,
                    d == dm ==> m == 0,
                    pw >= 0,
                    d < dm ==> pw >= 1,
                    pw == (if d < dm { pow(kk, (dm - d - 1) as nat) } else { 0 }),
                    row_weight(rows@, kk, dm) == row_weight(rest, kk, dm) + m * pw,
                    vis_inv(r, self.shadow_casting@, self.visibles@),
                    self.capacity == old(self).capacity,
                    self.costs == old(self).costs,
                    self.lighted == old(self).lighted,
                    self.src == old(self).src,
                    self.ray_cache == old(self).ray_cache,
                    self.shadow_casting@.len() == sc0.len(),
                    forall|i: int| 0 <= i < sc0.len() && sc0[i] ==> #[trigger] self.shadow_casting@[i],
                    forall|q: Point| passable.requires((q,)),
                decreases ts@.len() - ti,
            {
                let tile = ts[ti];
                proof {
                    assert(ts@[ti as int].x == d);
                    lemma_quad_in_range(dir, src, r, tile);
                }
                let wall: bool = !passable(qt.transform(tile));
                let reveal_it: bool = (wall || row.is_symmetric(tile, Ghost(dm))) && (diags || (tile.x <= 1
                    && tile.y == 0) || (tile.x > 1 && passable(qt.transform(tile.shift(-1, 0)))) || (tile.y
                    >= 0 && passable(qt.transform(tile.shift(0, -1)))) || (tile.y <= 0 && passable(
                    qt.transform(tile.shift(0, 1)),
                )));
                proof {
                    if first && ti == j0 {
                        assert(tile.x == 1 && tile.y == 0);
                        assert(quad_point(dir, src, tile) == quad_point(dir, src, pt(1, 0)));
                        assert(row == init);
                        assert(row.slope_end.x == 1 && row.slope_end.y == 1 && row.depth == 1 && row.slope_start.x == -1
                            && row.slope_start.y == 1);
                        assert(tile.y * row.slope_start.y >= row.depth * row.slope_start.x);
                        assert(tile.y * row.slope_end.y <= row.depth * row.slope_end.x) by (nonlinear_arith)
                            requires
                                tile.y == 0,
                                row.slope_end.x == 1,
                                row.slope_end.y == 1,
                                row.depth == 1,
                        ;
                        assert(reveal_it);
                    }
                }
                if reveal_it {
                    let q = qt.transform(tile);
                    self.reveal_point(q);
                }
                let prev = match ptile {
                    None => {
                        ptile = Some(tile);
                        ti = ti + 1;
                        continue;
                    },
                    Some(pp) => pp,
                };
                let pwall: bool = !passable(qt.transform(prev));
                if pwall && !wall {
                    if !diags {
                        if tile.x < dmax && !passable(qt.transform(tile.shift(1, 0))) {
                            row.slope_start = slope_square(tile.shift(1, 0));
                        } else if tile.x > 1 && !passable(qt.transform(tile.shift(-1, 0))) {
                            row.slope_start = slope_diamond(tile.shift(-1, 1));
                        } else {
                            row.slope_start = slope_diamond(tile);
                        }
                    } else {
                        row.slope_start = slope_diamond(tile);
                    }
                }
                if !pwall && wall {
                    let mut nr = row.next();
                    if !diags {
                        if tile.x < dmax && !passable(qt.transform(prev.shift(1, 0))) {
                            nr.slope_end = slope_square(tile.shift(1, 0));
                        } else if prev.x > 1 && !passable(qt.transform(prev.shift(-1, 0))) {
                            nr.slope_end = slope_diamond(prev.shift(-1, 0));
                        } else {
                            nr.slope_end = slope_diamond(tile);
                        }
                    } else {
                        nr.slope_end = slope_diamond(tile);
                    }
                    if nr.depth <= dmax {
                        proof {
                            assert((dm - nr.depth) as nat == (dm - d - 1) as nat);
                            assert(pow(kk, (dm - nr.depth) as nat) == pw);
                            lemma_row_weight_push(rows@, nr, kk, dm);
                            assert((m + 1) * pw == m * pw + pw) by (nonlinear_arith);
                        }
                        rows.push(nr);
                        proof {
                            m = m + 1;
                        }
                    }
                }
                ptile = Some(tile);
                ti = ti + 1;
            }
            match ptile {
                None => {},
                Some(pp) => {
                    if passable(qt.transform(pp)) && row.depth < dmax {
                        let nx = row.next();
                        proof {
                            assert((dm - nx.depth) as nat == (dm - d - 1) as nat);
                            assert(pow(kk, (dm - nx.depth) as nat) == pw);
                            lemma_row_weight_push(rows@, nx, kk, dm);
                            assert((m + 1) * pw == m * pw + pw) by (nonlinear_arith);
                        }
                        rows.push(nx);
                        proof {
                            m = m + 1;
                        }
                    }
                },
            }
            proof {
                assert(m <= kk - 1);
                if d < dm {
                    assert(m * pw <= (kk - 1) * pw) by (nonlinear_arith)
                        requires
                            0 <= m <= kk - 1,
                            pw >= 1,
                    ;
                    assert((kk - 1) * pw < kk * pw) by (nonlinear_arith)
                        requires
                            pw >= 1,
                    ;
                }
                lemma_row_weight_nonneg(rows@, kk, dm);
                if d == dm {
                    reveal(pow);
                    assert(pow(kk, 0) == 1);
                    assert((dm - d) as nat == 0);
                }
                assert(row_weight(rows@, kk, dm) < row_weight(rows0, kk, dm));
                if first {
                    seed_done = true;
                }
            }
        }
    }
}


/// Whether shadow casting from `src` with depth `max_depth` stays in the
/// range: a negative depth still looks one row out in every direction, so
/// the source must then lie strictly inside.
pub open spec fn ssc_src_ok(r: Range, src: Point, max_depth: i32) -> bool {
    r.spec_contains(src) && max_depth < 0 ==> r.min.x < src.x < r.max.x - 1 && r.min.y < src.y < r.max.y - 1
}

/// Whether `a` is one of the four orthogonal neighbours of `b`.
pub open spec fn orth_adjacent(a: Point, b: Point) -> bool {
    ||| a.x == b.x && (a.y == b.y + 1 || a.y == b.y - 1)
    ||| a.y == b.y && (a.x == b.x + 1 || a.x == b.x - 1)
}

/// Whether `p` lies within the Euclidean circle of radius `radius` around
/// `c`.
pub open spec fn in_circle(p: Point, c: Point, radius: i32) -> bool {
    (p.x - c.x) * (p.x - c.x) + (p.y - c.y) * (p.y - c.y) <= radius * radius
}

/// The points of `s` inside the circle, in order.
pub open spec fn circle_keep(s: Seq<Point>, c: Point, radius: i32) -> Seq<Point>
    decreases s.len(),
{
    if s.len() == 0 {
        s
    } else if in_circle(s.last(), c, radius) {
        circle_keep(s.drop_last(), c, radius).push(s.last())
    } else {
        circle_keep(s.drop_last(), c, radius)
    }
}

/// Whether `p` lies within the circle around one of the sources.
pub open spec fn in_any_circle(p: Point, srcs: Seq<Point>, radius: i32) -> bool {
    exists|j: int| 0 <= j < srcs.len() && in_circle(p, #[trigger] srcs[j], radius)
}

/// The points of `s` inside one of the circles, in order.
pub open spec fn circles_keep(s: Seq<Point>, srcs: Seq<Point>, radius: i32) -> Seq<Point>
    decreases s.len(),
{
    if s.len() == 0 {
        s
    } else if in_any_circle(s.last(), srcs, radius) {
        circles_keep(s.drop_last(), srcs, radius).push(s.last())
    } else {
        circles_keep(s.drop_last(), srcs, radius)
    }
}

/// Whether `p` lies within the circle, computed in `i128`.
fn circle_test(p: Point, c: Point, radius: i32) -> (b: bool)
    ensures
        b == in_circle(p, c, radius),
{
    let dx: i128 = p.x as i128 - c.x as i128;
    let dy: i128 = p.y as i128 - c.y as i128;
    proof {
        assert(0 <= dx * dx <= 0x1_0000_0000 * 0x1_0000_0000) by (nonlinear_arith)
            requires
                -0x1_0000_0000 <= dx <= 0x1_0000_0000,
        ;
        assert(0 <= dy * dy <= 0x1_0000_0000 * 0x1_0000_0000) by (nonlinear_arith)
            requires
                -0x1_0000_0000 <= dy <= 0x1_0000_0000,
        ;
        assert(0 <= (radius as int) * (radius as int) <= 0x8000_0000 * 0x8000_0000) by (nonlinear_arith)
            requires
                -0x8000_0000 <= radius < 0x8000_0000,
        ;
    }
    let r2: i128 = (radius as i128) * (radius as i128);
    dx * dx + dy * dy <= r2
}

impl FOV {
    /// Shadow casting from one source: the source and the four quadrants.
    fn ssc_internal<F: Fn(Point) -> bool>(&mut self, src: Point, max_depth: i32, passable: &F, diags: bool)
        requires
            fov_ok(old(self).range),
            old(self).range.spec_contains(src),
            ssc_src_ok(old(self).range, src, max_depth),
            vis_inv(old(self).range, old(self).shadow_casting@, old(self).visibles@),
            forall|q: Point| passable.requires((q,)),
        ensures
            vis_inv(final(self).range, final(self).shadow_casting@, final(self).visibles@),
            final(self).range == old(self).range,
            final(self).capacity == old(self).capacity,
            final(self).costs == old(self).costs,
            final(self).lighted == old(self).lighted,
            final(self).src == old(self).src,
            final(self).ray_cache == old(self).ray_cache,
            final(self).shadow_casting@.len() == old(self).shadow_casting@.len(),
            final(self).shadow_casting@[PathRange::index_of(final(self).range, src)],
            forall|i: int| 0 <= i < old(self).shadow_casting@.len() && old(self).shadow_casting@[i]
                ==> #[trigger] final(self).shadow_casting@[i],
            old(self).visibles@.len() == 0 ==> final(self).visibles@.len() >= 1 && final(self).visibles@[0] == src,
            max_depth != 0 ==> forall|d: i32| 0 <= d < 4 && quad_depth(d, src, old(self).range) >= 1
                ==> final(self).shadow_casting@[PathRange::index_of(old(self).range, #[trigger] quad_point(d, src, pt(1, 0)))],
    {
        let ghost r = self.range;
        let ghost v_empty = self.visibles@.len() == 0;
        self.reveal_point(src);
        let ghost si = PathRange::index_of(r, src);
        proof {
            lemma_index_of_bounds(r, src);
        }
        let mut dir: i32 = 0;
        while dir < 4
            invariant
                fov_ok(r),
                self.range == r,
                r.spec_contains(src),
                ssc_src_ok(r, src, max_depth),
                0 <= dir <= 4,
                vis_inv(r, self.shadow_casting@, self.visibles@),
                self.capacity == old(self).capacity,
                self.costs == old(self).costs,
                self.lighted == old(self).lighted,
                self.src == old(self).src,
                self.ray_cache == old(self).ray_cache,
                self.shadow_casting@.len() == old(self).shadow_casting@.len(),
                self.shadow_casting@[si],
                si == PathRange::index_of(r, src),
                0 <= si < self.shadow_casting@.len(),
                v_empty ==> self.visibles@.len() >= 1 && self.visibles@[0] == src,
                max_depth != 0 ==> forall|d: i32| 0 <= d < dir && quad_depth(d, src, r) >= 1
                    ==> self.shadow_casting@[PathRange::index_of(r, #[trigger] quad_point(d, src, pt(1, 0)))],
                forall|i: int| 0 <= i < old(self).shadow_casting@.len() && old(self).shadow_casting@[i]
                    ==> #[trigger] self.shadow_casting@[i],
                forall|q: Point| passable.requires((q,)),
            decreases 4 - dir,
        {
            proof {
                lemma_index_of_bounds(r, src);
            }
            let ghost sc_before = self.shadow_casting@;
            self.ssc_quadrant(src, max_depth, dir, passable, diags);
            proof {
                if max_depth != 0 {
                    assert forall|d: i32| 0 <= d < dir + 1 && quad_depth(d, src, r) >= 1
                        implies self.shadow_casting@[PathRange::index_of(r, #[trigger] quad_point(d, src, pt(1, 0)))] by {
                        if d < dir {
                            lemma_quad_in_range(d, src, r, pt(1, 0));
                            lemma_index_of_bounds(r, quad_point(d, src, pt(1, 0)));
                            assert(sc_before[PathRange::index_of(r, quad_point(d, src, pt(1, 0)))]);
                        }
                    }
                }
            }
            dir = dir + 1;
        }
    }

    /// The visibility map cleared and no point listed.
    fn ssc_reset(&mut self)
        requires
            old(self).wf(),
        ensures
            final(self).wf(),
            vis_inv(final(self).range, final(self).shadow_casting@, final(self).visibles@),
            final(self).range == old(self).range,
            final(self).capacity == old(self).capacity,
            final(self).costs == old(self).costs,
            final(self).lighted == old(self).lighted,
            final(self).src == old(self).src,
            final(self).visibles@.len() == 0,
            final(self).shadow_casting@.len() >= final(self).capacity,
    {
        self.reset_shadow_casting();
        self.visibles.clear();
        proof {
            assert forall|p: Point| self.range.spec_contains(p) && #[trigger] self.shadow_casting@[PathRange::index_of(self.range, p)]
                implies self.visibles@.contains(p) by {
                lemma_index_of_bounds(self.range, p);
            }
        }
    }

    /// Compute the field of vision from `src` by symmetric shadow casting,
    /// up to `max_depth` rows out. `passable` tells whether a point lets
    /// vision through; `diags` lets diagonal adjacency reveal cells at the
    /// boundary.
    ///
    /// Returns the visible points, each once: exactly those for which
    /// [`visible`](Self::visible) holds, the source among them. Nothing is
    /// visible when `src` is outside the range.
    pub fn ssc_vision_map<F: Fn(Point) -> bool>(&mut self, src: Point, max_depth: i32, passable: F, diags: bool) -> (res: &[Point])
        requires
            old(self).wf(),
            ssc_src_ok(old(self).spec_range(), src, max_depth),
            forall|q: Point| passable.requires((q,)),
        ensures
            final(self).wf(),
            final(self).spec_range() == old(self).spec_range(),
            res@ == final(self).spec_visibles(),
            !old(self).spec_range().spec_contains(src) ==> res@.len() == 0,
            old(self).spec_range().spec_contains(src) ==> final(self).is_visible(src),
            forall|a: int, b: int| 0 <= a < b < res@.len() ==> #[trigger] res@[a] != #[trigger] res@[b],
            old(self).spec_range().spec_contains(src) ==> forall|k: int| 0 <= k < res@.len()
                ==> final(self).is_visible(#[trigger] res@[k]),
            old(self).spec_range().spec_contains(src) ==> forall|p: Point| #[trigger] final(self).is_visible(p)
                ==> res@.contains(p),
            old(self).spec_range().spec_contains(src) ==> res@.len() >= 1 && res@[0] == src,
            forall|k: int| 0 <= k < res@.len() ==> old(self).spec_range().spec_contains(#[trigger] res@[k]),
            old(self).spec_range().spec_contains(src) ==> final(self).has_vis_map(),
            old(self).spec_range().spec_contains(src) && max_depth != 0 ==> forall|n: Point|
                old(self).spec_range().spec_contains(n) && #[trigger] orth_adjacent(n, src) ==> final(self).is_visible(n),
    {
        if !self.range.contains(src) {
            self.visibles.clear();
            return self.visibles.as_slice();
        }
        self.ssc_reset();
        self.ssc_internal(src, max_depth, &passable, diags);
        proof {
            self.lemma_vis_wf();
            if max_depth != 0 {
                let r = self.range;
                assert forall|n: Point| r.spec_contains(n) && #[trigger] orth_adjacent(n, src) implies self.is_visible(n) by {
                    let d: i32 = if n.y == src.y - 1 { 0 } else if n.x == src.x + 1 { 1 } else if n.y == src.y + 1 { 2 } else { 3 };
                    assert(quad_point(d, src, pt(1, 0)) == n);
                    assert(quad_depth(d, src, r) >= 1);
                }
            }
        }
        self.visibles.as_slice()
    }

    /// What the visibility invariant gives of the public view.
    proof fn lemma_vis_wf(&self)
        requires
            fov_ok(self.range),
            self.capacity >= self.range.spec_len(),
            self.costs@.len() == 0 || self.costs@.len() >= self.capacity,
            self.shadow_casting@.len() >= self.capacity,
            vis_inv(self.range, self.shadow_casting@, self.visibles@),
        ensures
            self.wf(),
            forall|k: int| 0 <= k < self.visibles@.len() ==> self.is_visible(#[trigger] self.visibles@[k]),
            forall|p: Point| #[trigger] self.is_visible(p) ==> self.visibles@.contains(p),
    {
        assert forall|k: int| 0 <= k < self.visibles@.len() implies small_point(#[trigger] self.visibles@[k]) by {
            assert(self.range.spec_contains(self.visibles@[k]));
        }
        assert forall|k: int| 0 <= k < self.visibles@.len() implies self.is_visible(#[trigger] self.visibles@[k]) by {
            lemma_index_of_bounds(self.range, self.visibles@[k]);
        }
        assert forall|p: Point| #[trigger] self.is_visible(p) implies self.visibles@.contains(p) by {
            assert(self.shadow_casting@[PathRange::index_of(self.range, p)]);
        }
    }

    /// Shadow casting from several sources: a point is visible when some
    /// source in the range sees it. Returns the visible points, each once:
    /// exactly those for which [`visible`](Self::visible) holds.
    pub fn ssc_light_map<F: Fn(Point) -> bool>(&mut self, srcs: &[Point], max_depth: i32, passable: F, diags: bool) -> (res: &[Point])
        requires
            old(self).wf(),
            forall|j: int| 0 <= j < srcs@.len() ==> ssc_src_ok(old(self).spec_range(), #[trigger] srcs@[j], max_depth),
            forall|q: Point| passable.requires((q,)),
        ensures
            final(self).wf(),
            final(self).spec_range() == old(self).spec_range(),
            res@ == final(self).spec_visibles(),
            forall|a: int, b: int| 0 <= a < b < res@.len() ==> #[trigger] res@[a] != #[trigger] res@[b],
            forall|k: int| 0 <= k < res@.len() ==> final(self).is_visible(#[trigger] res@[k]),
            forall|p: Point| #[trigger] final(self).is_visible(p) ==> res@.contains(p),
            forall|j: int| 0 <= j < srcs@.len() && old(self).spec_range().spec_contains(#[trigger] srcs@[j])
                ==> final(self).is_visible(srcs@[j]),
    {
        self.ssc_reset();
        let ghost r = self.range;
        let mut j: usize = 0;
        while j < srcs.len()
            invariant
                fov_ok(r),
                self.range == r,
                self.capacity >= r.spec_len(),
                self.costs@.len() == 0 || self.costs@.len() >= self.capacity,
                self.shadow_casting@.len() >= self.capacity,
                vis_inv(r, self.shadow_casting@, self.visibles@),
                j <= srcs@.len(),
                forall|t: int| 0 <= t < srcs@.len() ==> ssc_src_ok(r, #[trigger] srcs@[t], max_depth),
                forall|t: int| 0 <= t < j && r.spec_contains(#[trigger] srcs@[t])
                    ==> self.shadow_casting@[PathRange::index_of(r, srcs@[t])],
                forall|q: Point| passable.requires((q,)),
            decreases srcs@.len() - j,
        {
            let src = srcs[j];
            if self.range.contains(src) {
                let ghost before = self.shadow_casting@;
                self.ssc_internal(src, max_depth, &passable, diags);
                proof {
                    assert forall|t: int| 0 <= t < j + 1 && r.spec_contains(#[trigger] srcs@[t])
                        implies self.shadow_casting@[PathRange::index_of(r, srcs@[t])] by {
                        lemma_index_of_bounds(r, srcs@[t]);
                        if t < j {
                            assert(before[PathRange::index_of(r, srcs@[t])]);
                        }
                    }
                }
            }
            j = j + 1;
        }
        proof {
            self.lemma_vis_wf();
            assert forall|t: int| 0 <= t < srcs@.len() && r.spec_contains(#[trigger] srcs@[t])
                implies self.is_visible(srcs@[t]) by {
                lemma_index_of_bounds(r, srcs@[t]);
            }
        }
        self.visibles.as_slice()
    }
}


/// The kept points lie in the circle, come from the sequence, and every
/// point of the sequence in the circle is kept.
proof fn lemma_circle_keep(s: Seq<Point>, c: Point, radius: i32)
    ensures
        circle_keep(s, c, radius).len() <= s.len(),
        forall|k: int| 0 <= k < circle_keep(s, c, radius).len() ==> in_circle(#[trigger] circle_keep(s, c, radius)[k], c, radius)
            && s.contains(circle_keep(s, c, radius)[k]),
        forall|k: int| 0 <= k < s.len() && in_circle(#[trigger] s[k], c, radius) ==> circle_keep(s, c, radius).contains(s[k]),
    decreases s.len(),
{
    if s.len() > 0 {
        let t = s.drop_last();
        lemma_circle_keep(t, c, radius);
        let ck = circle_keep(s, c, radius);
        let ct = circle_keep(t, c, radius);
        assert forall|k: int| 0 <= k < ck.len() implies in_circle(#[trigger] ck[k], c, radius) && s.contains(ck[k]) by {
            if k < ct.len() {
                assert(ck[k] == ct[k]);
                let j = choose|j: int| 0 <= j < t.len() && t[j] == ct[k];
                assert(s[j] == t[j]);
            } else {
                assert(s[s.len() - 1] == s.last());
            }
        }
        assert forall|k: int| 0 <= k < s.len() && in_circle(#[trigger] s[k], c, radius) implies ck.contains(s[k]) by {
            if k < t.len() {
                assert(t[k] == s[k]);
                let j = choose|j: int| 0 <= j < ct.len() && ct[j] == t[k];
                assert(ck[j] == ct[j]);
            } else {
                assert(ck[ck.len() - 1] == s.last());
            }
        }
    }
}

/// The kept points lie in some circle, come from the sequence, and every
/// point of the sequence in some circle is kept.
proof fn lemma_circles_keep(s: Seq<Point>, srcs: Seq<Point>, radius: i32)
    ensures
        circles_keep(s, srcs, radius).len() <= s.len(),
        forall|k: int| 0 <= k < circles_keep(s, srcs, radius).len() ==> in_any_circle(
            #[trigger] circles_keep(s, srcs, radius)[k],
            srcs,
            radius,
        ) && s.contains(circles_keep(s, srcs, radius)[k]),
        forall|k: int| 0 <= k < s.len() && in_any_circle(#[trigger] s[k], srcs, radius) ==> circles_keep(
            s,
            srcs,
            radius,
        ).contains(s[k]),
    decreases s.len(),
{
    if s.len() > 0 {
        let t = s.drop_last();
        lemma_circles_keep(t, srcs, radius);
        let ck = circles_keep(s, srcs, radius);
        let ct = circles_keep(t, srcs, radius);
        assert forall|k: int| 0 <= k < ck.len() implies in_any_circle(#[trigger] ck[k], srcs, radius) && s.contains(ck[k]) by {
            if k < ct.len() {
                assert(ck[k] == ct[k]);
                let j = choose|j: int| 0 <= j < t.len() && t[j] == ct[k];
                assert(s[j] == t[j]);
            } else {
                assert(s[s.len() - 1] == s.last());
            }
        }
        assert forall|k: int| 0 <= k < s.len() && in_any_circle(#[trigger] s[k], srcs, radius) implies ck.contains(s[k]) by {
            if k < t.len() {
                assert(t[k] == s[k]);
                let j = choose|j: int| 0 <= j < ct.len() && ct[j] == t[k];
                assert(ck[j] == ct[j]);
            } else {
                assert(ck[ck.len() - 1] == s.last());
            }
        }
    }
}

/// Whether `p` lies within the circle around one of the sources.
fn any_circle_test(p: Point, srcs: &[Point], radius: i32) -> (b: bool)
    requires
        small_point(p),
        forall|j: int| 0 <= j < srcs@.len() ==> small_point(#[trigger] srcs@[j]),
    ensures
        b == in_any_circle(p, srcs@, radius),
{
    let mut j: usize = 0;
    while j < srcs.len()
        invariant
            j <= srcs@.len(),
            small_point(p),
            forall|t: int| 0 <= t < srcs@.len() ==> small_point(#[trigger] srcs@[t]),
            forall|t: int| 0 <= t < j ==> !in_circle(p, #[trigger] srcs@[t], radius),
        decreases srcs@.len() - j,
    {
        if circle_test(p, srcs[j], radius) {
            return true;
        }
        j = j + 1;
    }
    false
}

impl FOV {
    /// Mark in the visibility map exactly the listed points of the range,
    /// when the map is there.
    fn remark_visibles(&mut self)
        requires
            old(self).wf(),
        ensures
            final(self).wf(),
            final(self).range == old(self).range,
            final(self).visibles == old(self).visibles,
            final(self).costs == old(self).costs,
            final(self).lighted == old(self).lighted,
            final(self).src == old(self).src,
            final(self).shadow_casting@.len() == old(self).shadow_casting@.len(),
            old(self).shadow_casting@.len() > 0 ==> forall|p: Point| final(self).range.spec_contains(p)
                ==> (#[trigger] final(self).is_visible(p) <==> final(self).visibles@.contains(p)),
    {
        let n: usize = self.shadow_casting.len();
        if n == 0 {
            return;
        }
        let ghost r = self.range;
        let mut i: usize = 0;
        while i < n
            invariant
                self.wf(),
                self.range == r,
                self.visibles == old(self).visibles,
                self.costs == old(self).costs,
                self.lighted == old(self).lighted,
                self.src == old(self).src,
                n == self.shadow_casting@.len(),
                n == old(self).shadow_casting@.len(),
                i <= n,
                forall|k: int| 0 <= k < i ==> !self.shadow_casting@[k],
            decreases n - i,
        {
            self.shadow_casting.set(i, false);
            i = i + 1;
        }
        let mut k: usize = 0;
        proof {
            assert forall|p: Point| r.spec_contains(p) implies (#[trigger] self.shadow_casting@[PathRange::index_of(r, p)]
                <==> self.visibles@.subrange(0, 0).contains(p)) by {
                lemma_index_of_bounds(r, p);
            }
        }
        while k < self.visibles.len()
            invariant
                self.wf(),
                self.range == r,
                self.visibles == old(self).visibles,
                self.costs == old(self).costs,
                self.lighted == old(self).lighted,
                self.src == old(self).src,
                n == self.shadow_casting@.len(),
                n > 0,
                n >= r.spec_len(),
                k <= self.visibles@.len(),
                forall|p: Point| r.spec_contains(p) ==> (#[trigger] self.shadow_casting@[PathRange::index_of(r, p)]
                    <==> self.visibles@.subrange(0, k as int).contains(p)),
            decreases self.visibles@.len() - k,
        {
            let p = self.visibles[k];
            let ghost before = self.shadow_casting@;
            if self.range.contains(p) {
                let ix = self.idx(p);
                self.shadow_casting.set(ix, true);
            }
            proof {
                assert forall|q: Point| r.spec_contains(q) implies (#[trigger] self.shadow_casting@[PathRange::index_of(r, q)]
                    <==> self.visibles@.subrange(0, k + 1).contains(q)) by {
                    lemma_index_of_bounds(r, q);
                    let s0 = self.visibles@.subrange(0, k as int);
                    let s1 = self.visibles@.subrange(0, k + 1);
                    assert(s1 =~= s0.push(p));
                    if q == p {
                        assert(s1[k as int] == q);
                    } else {
                        if r.spec_contains(p) && PathRange::index_of(r, q) == PathRange::index_of(r, p) {
                            lemma_index_injective(r, q, p);
                        }
                        if s1.contains(q) {
                            let j = choose|j: int| 0 <= j < s1.len() && s1[j] == q;
                            assert(s0[j] == q);
                        }
                        if s0.contains(q) {
                            let j = choose|j: int| 0 <= j < s0.len() && s0[j] == q;
                            assert(s1[j] == q);
                        }
                    }
                }
            }
            k = k + 1;
        }
        proof {
            assert(self.visibles@.subrange(0, self.visibles@.len() as int) =~= self.visibles@);
            assert forall|p: Point| self.range.spec_contains(p) implies (#[trigger] self.is_visible(p)
                <==> self.visibles@.contains(p)) by {
                lemma_index_of_bounds(r, p);
            }
        }
    }

    /// Keep, of the points found visible, those within the Euclidean
    /// circle of radius `radius` around `center`, and make the visibility
    /// map match.
    pub fn retain_circular(&mut self, center: Point, radius: i32)
        requires
            old(self).wf(),
        ensures
            final(self).wf(),
            final(self).spec_range() == old(self).spec_range(),
            final(self).spec_visibles() == circle_keep(old(self).spec_visibles(), center, radius),
            final(self).has_vis_map() == old(self).has_vis_map(),
            old(self).has_vis_map() ==> forall|p: Point| final(self).spec_range().spec_contains(p)
                ==> (#[trigger] final(self).is_visible(p) <==> final(self).spec_visibles().contains(p)),
    {
        let ghost v0 = self.visibles@;
        let mut kept: Vec<Point> = Vec::new();
        let mut k: usize = 0;
        proof {
            assert(v0.subrange(0, 0) =~= Seq::<Point>::empty());
        }
        while k < self.visibles.len()
            invariant
                self.wf(),
                self.visibles@ == v0,
                k <= v0.len(),
                kept@ == circle_keep(v0.subrange(0, k as int), center, radius),
                forall|j: int| 0 <= j < kept@.len() ==> small_point(#[trigger] kept@[j]),
            decreases v0.len() - k,
        {
            let p = self.visibles[k];
            proof {
                assert(v0.subrange(0, k + 1).drop_last() =~= v0.subrange(0, k as int));
                assert(small_point(v0[k as int]));
            }
            if circle_test(p, center, radius) {
                kept.push(p);
            }
            k = k + 1;
        }
        proof {
            assert(v0.subrange(0, v0.len() as int) =~= v0);
        }
        self.visibles = kept;
        self.remark_visibles();
    }

    /// Symmetric shadow casting clipped to a Euclidean circle:
    /// `ssc_vision_map` then `retain_circular` around the source.
    pub fn ssc_vision_map_circular<F: Fn(Point) -> bool>(&mut self, src: Point, radius: i32, passable: F, diags: bool) -> (res: &[Point])
        requires
            old(self).wf(),
            ssc_src_ok(old(self).spec_range(), src, radius),
            forall|q: Point| passable.requires((q,)),
        ensures
            final(self).wf(),
            final(self).spec_range() == old(self).spec_range(),
            res@ == final(self).spec_visibles(),
            !old(self).spec_range().spec_contains(src) ==> res@.len() == 0,
            forall|k: int| 0 <= k < res@.len() ==> in_circle(#[trigger] res@[k], src, radius),
            old(self).spec_range().spec_contains(src) ==> final(self).has_vis_map(),
            old(self).spec_range().spec_contains(src) ==> forall|p: Point| old(self).spec_range().spec_contains(p)
                ==> (#[trigger] final(self).is_visible(p) <==> res@.contains(p)),
    {
        self.ssc_vision_map(src, radius, passable, diags);
        proof {
            if !self.range.spec_contains(src) {
                assert(self.visibles@.len() == 0);
            }
            lemma_circle_keep(self.visibles@, src, radius);
        }
        self.retain_circular(src, radius);
        self.visibles.as_slice()
    }

    /// Multi-source shadow casting clipped to the Euclidean circles of
    /// radius `radius` around the sources: a point stays visible when it is
    /// within the circle of some source.
    pub fn ssc_light_map_circular<F: Fn(Point) -> bool>(&mut self, srcs: &[Point], radius: i32, passable: F, diags: bool) -> (res: &[Point])
        requires
            old(self).wf(),
            forall|j: int| 0 <= j < srcs@.len() ==> ssc_src_ok(old(self).spec_range(), #[trigger] srcs@[j], radius),
            forall|j: int| 0 <= j < srcs@.len() ==> small_point(#[trigger] srcs@[j]),
            forall|q: Point| passable.requires((q,)),
        ensures
            final(self).wf(),
            final(self).spec_range() == old(self).spec_range(),
            res@ == final(self).spec_visibles(),
            forall|k: int| 0 <= k < res@.len() ==> in_any_circle(#[trigger] res@[k], srcs@, radius),
            forall|p: Point| old(self).spec_range().spec_contains(p)
                ==> (#[trigger] final(self).is_visible(p) <==> res@.contains(p)),
    {
        self.ssc_light_map(srcs, radius, passable, diags);
        let ghost v0 = self.visibles@;
        let mut kept: Vec<Point> = Vec::new();
        let mut k: usize = 0;
        proof {
            assert(v0.subrange(0, 0) =~= Seq::<Point>::empty());
        }
        while k < self.visibles.len()
            invariant
                self.wf(),
                self.visibles@ == v0,
                forall|j: int| 0 <= j < srcs@.len() ==> small_point(#[trigger] srcs@[j]),
                k <= v0.len(),
                kept@ == circles_keep(v0.subrange(0, k as int), srcs@, radius),
                forall|j: int| 0 <= j < kept@.len() ==> small_point(#[trigger] kept@[j]),
            decreases v0.len() - k,
        {
            let p = self.visibles[k];
            proof {
                assert(v0.subrange(0, k + 1).drop_last() =~= v0.subrange(0, k as int));
                assert(small_point(v0[k as int]));
            }
            if any_circle_test(p, srcs, radius) {
                kept.push(p);
            }
            k = k + 1;
        }
        proof {
            assert(v0.subrange(0, v0.len() as int) =~= v0);
            lemma_circles_keep(v0, srcs@, radius);
        }
        self.visibles = kept;
        self.remark_visibles();
        self.visibles.as_slice()
    }
}

} // verus!
