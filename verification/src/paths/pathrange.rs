//! The [`PathRange`] that owns the caches of every search.
use vstd::prelude::*;

use crate::geom::{Point, Range, pt, fits_i32};
use crate::grid::{lemma_index_in_bounds, lemma_points_in_range};

verus! {

/// A position with an associated cost, returned from Dijkstra / BFS map
/// queries.
#[derive(Debug, Clone, Copy, PartialEq, Eq, Structural)]
pub struct PathNode {
    pub pos: Point,
    pub cost: i32,
}

/// A search node of the A* / Dijkstra caches.
#[derive(Clone, Copy, Debug)]
pub struct Node {
    pub g: i32,
    pub f: i32,
    pub parent: usize,
    pub generation: u32,
    pub open: bool,
}

impl Node {
    /// A fresh node: no cost, no parent, generation 0, closed.
    pub fn fresh() -> (n: Node)
        ensures
            n.g == 0,
            n.f == 0,
            n.parent == usize::MAX,
            n.generation == 0,
            !n.open,
    {
        Node { g: 0, f: 0, parent: usize::MAX, generation: 0, open: false }
    }
}

impl Default for Node {
    fn default() -> (n: Node) {
        Node::fresh()
    }
}

/// Sentinel value meaning "unreachable" in BFS / Dijkstra maps.
pub const UNREACHABLE: i32 = 2147483647;

/// The sum of a sequence of integers.
pub open spec fn seq_sum(s: Seq<int>) -> int
    decreases s.len(),
{
    if s.len() == 0 {
        0
    } else {
        seq_sum(s.drop_last()) + s.last()
    }
}

/// Replacing one element changes the sum by the difference.
pub proof fn lemma_seq_sum_update(s: Seq<int>, i: int, x: int)
    requires
        0 <= i < s.len(),
    ensures
        seq_sum(s.update(i, x)) == seq_sum(s) - s[i] + x,
    decreases s.len(),
{
    let t = s.update(i, x);
    if i == s.len() - 1 {
        assert(t.drop_last() =~= s.drop_last());
    } else {
        lemma_seq_sum_update(s.drop_last(), i, x);
        assert(t.drop_last() =~= s.drop_last().update(i, x));
    }
}

/// A sum of non-negative integers is non-negative.
pub proof fn lemma_seq_sum_nonneg(s: Seq<int>)
    requires
        forall|i: int| 0 <= i < s.len() ==> s[i] >= 0,
    ensures
        seq_sum(s) >= 0,
    decreases s.len(),
{
    if s.len() > 0 {
        lemma_seq_sum_nonneg(s.drop_last());
    }
}

/// How many entries of `s` equal `v`.
pub open spec fn count_eq(s: Seq<i32>, v: i32) -> nat
    decreases s.len(),
{
    if s.len() == 0 {
        0
    } else {
        count_eq(s.drop_last(), v) + if s.last() == v { 1nat } else { 0nat }
    }
}

/// Setting one entry updates the count accordingly.
pub proof fn lemma_count_update(s: Seq<i32>, i: int, x: i32, v: i32)
    requires
        0 <= i < s.len(),
    ensures
        count_eq(s.update(i, x), v) == count_eq(s, v) - (if s[i] == v { 1int } else { 0int }) + (
        if x == v { 1int } else { 0int }),
    decreases s.len(),
{
    let t = s.update(i, x);
    if i == s.len() - 1 {
        assert(t.drop_last() =~= s.drop_last());
    } else {
        lemma_count_update(s.drop_last(), i, x, v);
        assert(t.drop_last() =~= s.drop_last().update(i, x));
    }
}

/// Central coordinator for path finding on a grid rectangle: it owns all
/// internal caches so that repeated queries reuse them.
pub struct PathRange {
    pub(crate) rng: Range,
    pub(crate) width: usize,
    pub(crate) astar_nodes: Vec<Node>,
    pub(crate) astar_generation: u32,
    pub(crate) dijkstra_nodes: Vec<Node>,
    pub(crate) dijkstra_generation: u32,
    pub(crate) dijkstra_results: Vec<PathNode>,
    pub(crate) dijkstra_map: Vec<i32>,
    pub(crate) bfs_map: Vec<i32>,
    pub(crate) bfs_queue: Vec<usize>,
    pub(crate) bfs_results: Vec<PathNode>,
    pub(crate) cc_labels: Vec<i32>,
    pub(crate) cc_stack: Vec<usize>,
}

/// Whether a range can back a `PathRange`: its extents and cell count are
/// machine-sized.
pub open spec fn range_ok(r: Range) -> bool {
    &&& r.dims_fit()
    &&& r.spec_len() < i32::MAX
    &&& r.spec_len() <= usize::MAX
}

impl PathRange {
    /// The well-formedness of the caches: each has one entry per cell.
    pub closed spec fn wf(&self) -> bool {
        self.inv()
    }

    /// What `wf` and `spec_range` stand for, for the search modules.
    pub(crate) proof fn lemma_wf(&self)
        ensures
            self.wf() == self.inv(),
            self.spec_range() == self.rng,
    {
    }

    pub(crate) open spec fn inv(&self) -> bool {
        let len = self.rng.spec_len();
        &&& range_ok(self.rng)
        &&& (!self.rng.spec_is_empty() ==> self.width == self.rng.spec_width())
        &&& self.astar_nodes@.len() == len
        &&& self.dijkstra_nodes@.len() == len
        &&& self.dijkstra_map@.len() == len
        &&& self.bfs_map@.len() == len
        &&& self.cc_labels@.len() == len
        &&& forall|i: int| 0 <= i < len ==> #[trigger] self.astar_nodes@[i].g >= 0
        &&& forall|i: int| 0 <= i < len ==> #[trigger] self.dijkstra_nodes@[i].g >= 0
        &&& forall|i: int| 0 <= i < len ==> #[trigger] self.astar_nodes@[i].generation
            <= self.astar_generation
        &&& forall|i: int| 0 <= i < len ==> #[trigger] self.dijkstra_nodes@[i].generation
            <= self.dijkstra_generation
    }

    /// The grid rectangle searched.
    pub closed spec fn spec_range(&self) -> Range {
        self.rng
    }

    /// The flat index of a point of the range.
    pub open spec fn index_of(r: Range, p: Point) -> int {
        (p.y - r.min.y) * r.spec_width() + (p.x - r.min.x)
    }

    /// Create a new `PathRange` for the given grid rectangle.
    pub fn new(rng: Range) -> (pr: PathRange)
        requires
            range_ok(rng),
        ensures
            pr.wf(),
            pr.spec_range() == rng,
    {
        let w: usize = if rng.max.x > rng.min.x { rng.width() as usize } else { 0 };
        let len: usize = rng.len();
        PathRange {
            rng,
            width: w,
            astar_nodes: vec![Node::fresh(); len],
            astar_generation: 0,
            dijkstra_nodes: vec![Node::fresh(); len],
            dijkstra_generation: 0,
            dijkstra_results: Vec::new(),
            dijkstra_map: vec![UNREACHABLE; len],
            bfs_map: vec![UNREACHABLE; len],
            bfs_queue: Vec::new(),
            bfs_results: Vec::new(),
            cc_labels: vec![-1i32; len],
            cc_stack: Vec::new(),
        }
    }

    /// Replace the underlying range, resetting every cache.
    pub fn set_range(&mut self, rng: Range)
        requires
            range_ok(rng),
        ensures
            final(self).wf(),
            final(self).spec_range() == rng,
    {
        *self = PathRange::new(rng);
    }

    /// The grid rectangle being used.
    pub fn range(&self) -> (r: Range)
        ensures
            r == self.spec_range(),
    {
        self.rng
    }

    /// The flat index of `p`, or `None` if `p` is outside the range.
    pub(crate) fn idx(&self, p: Point) -> (r: Option<usize>)
        requires
            self.inv(),
        ensures
            r is Some <==> self.rng.spec_contains(p),
            r matches Some(i) ==> i < self.rng.spec_len() && i == PathRange::index_of(self.rng, p),
    {
        if !self.rng.contains(p) {
            return None;
        }
        let x: usize = (p.x as i64 - self.rng.min.x as i64) as usize;
        let y: usize = (p.y as i64 - self.rng.min.y as i64) as usize;
        proof {
            lemma_index_in_bounds(x as int, y as int, self.width as int, self.rng.spec_height());
        }
        Some(y * self.width + x)
    }

    /// The point at flat index `i`.
    pub(crate) fn point(&self, i: usize) -> (p: Point)
        requires
            self.inv(),
            i < self.rng.spec_len(),
        ensures
            self.rng.spec_contains(p),
            p == self.rng.points_seq()[i as int],
            PathRange::index_of(self.rng, p) == i,
    {
        proof {
            crate::grid::lemma_points_len(self.rng);
            lemma_points_in_range(self.rng, i as int);
            lemma_index_point(self.rng, i as int);
        }
        let x: i32 = (i % self.width) as i32 + self.rng.min.x;
        let y: i32 = (i / self.width) as i32 + self.rng.min.y;
        Point::new(x, y)
    }
}

/// The index of a point of a range lies within the range's cell count.
pub proof fn lemma_index_of_bounds(r: Range, p: Point)
    requires
        r.spec_contains(p),
    ensures
        0 <= PathRange::index_of(r, p) < r.spec_len(),
{
    lemma_index_in_bounds(p.x - r.min.x, p.y - r.min.y, r.spec_width(), r.spec_height());
}

/// Distinct points of a range have distinct indices.
pub proof fn lemma_index_injective(r: Range, p: Point, q: Point)
    requires
        r.spec_contains(p),
        r.spec_contains(q),
        PathRange::index_of(r, p) == PathRange::index_of(r, q),
    ensures
        p == q,
{
    let w = r.spec_width();
    let a = p.x - r.min.x;
    let b = p.y - r.min.y;
    let c = q.x - r.min.x;
    let d = q.y - r.min.y;
    assert(a == c && b == d) by (nonlinear_arith)
        requires
            0 <= a < w,
            0 <= c < w,
            0 <= b,
            0 <= d,
            b * w + a == d * w + c,
    ;
}

/// Row-major indices and points correspond.
pub proof fn lemma_index_point(r: Range, i: int)
    requires
        !r.spec_is_empty(),
        r.dims_fit(),
        0 <= i < r.spec_len(),
    ensures
        PathRange::index_of(r, pt(r.min.x + i % r.spec_width(), r.min.y + i / r.spec_width())) == i,
        0 <= i % r.spec_width() < r.spec_width(),
        0 <= i / r.spec_width() < r.spec_height(),
{
    let w = r.spec_width();
    let h = r.spec_height();
    assert(i == (i / w) * w + i % w && 0 <= i % w < w && 0 <= i / w < h) by (nonlinear_arith)
        requires
            w > 0,
            h > 0,
            0 <= i < w * h,
    ;
}

/// The point at the index of a point of the range is that point.
pub proof fn lemma_point_at_index(r: Range, p: Point)
    requires
        r.spec_contains(p),
        r.dims_fit(),
    ensures
        0 <= PathRange::index_of(r, p) < r.spec_len(),
        r.points_seq()[PathRange::index_of(r, p)] == p,
{
    let i = PathRange::index_of(r, p);
    lemma_index_of_bounds(r, p);
    crate::grid::lemma_points_len(r);
    lemma_points_in_range(r, i);
    lemma_index_point(r, i);
    lemma_index_injective(r, r.points_seq()[i], p);
}

} // verus!
