//! Jump Point Search (JPS) on uniform-cost grids.
//!
//! JPS is an A* variant for grids where every passable step has the same
//! cost. It "jumps" along straight lines, only adding nodes to the open
//! list at *jump points*: positions with forced neighbours.
use vstd::prelude::*;

use crate::geom::{Point, Range, pt};
use crate::paths::pathrange::{PathRange, Node, UNREACHABLE, seq_sum, lemma_index_injective,
    lemma_point_at_index, lemma_index_of_bounds};
use crate::paths::dijkstra::{hseq, lemma_hsum_update, lemma_hsum_nonneg, next_generation};
use crate::paths::astar::{links_ok, path_in, parent_link, closed_ok, expanded_ok, edge_ok, ranks_ok, rank_lt, nodes_before,
    search_closed, usable_walk, lemma_closed_search_walks, lemma_pop_keeps, lemma_closed_update,
    lemma_rank_update, lemma_reaches_root, lemma_closed_update_close, lemma_closed_new_answer,
    lemma_expanded_skip, lemma_expanded_step, lemma_closed_finish};
use crate::paths::distance::{manhattan, abs_int, spec_manhattan};
use crate::paths::queue::{MinQueue, NodeRef};

verus! {

/// A direction: each coordinate is -1, 0 or 1.
pub open spec fn is_dir(d: Point) -> bool {
    -1 <= d.x <= 1 && -1 <= d.y <= 1
}

/// A moving direction: a direction other than the zero one.
pub open spec fn is_move(d: Point) -> bool {
    is_dir(d) && (d.x != 0 || d.y != 0)
}

/// Whether a range is small and far enough from the limits of `i32` for a
/// jump point search: one step out of it, and a walk across it, can be
/// computed in `i32`.
pub open spec fn jps_ok(r: Range) -> bool {
    &&& r.dims_fit()
    &&& r.min.x > i32::MIN + 2
    &&& r.min.y > i32::MIN + 2
    &&& r.max.x < i32::MAX - 2
    &&& r.max.y < i32::MAX - 2
    &&& r.spec_width() + r.spec_height() < i32::MAX - 4
}

/// The four cardinal moves, in the order a search tries them.
pub open spec fn card_dirs() -> Seq<Point> {
    seq![pt(1, 0), pt(-1, 0), pt(0, 1), pt(0, -1)]
}

/// Two points one king's move apart.
pub open spec fn adjacent(p: Point, q: Point) -> bool {
    &&& p != q
    &&& -1 <= p.x - q.x <= 1
    &&& -1 <= p.y - q.y <= 1
}

/// Each point of the sequence is one king's move from the next.
pub open spec fn unit_steps(s: Seq<Point>) -> bool {
    forall|i: int| 0 <= i < s.len() - 1 ==> adjacent(#[trigger] s[i], s[i + 1])
}

/// Whether `c` lies in the box spanned by `a` and `b`.
pub open spec fn between(a: Point, c: Point, b: Point) -> bool {
    &&& (a.x <= c.x <= b.x || b.x <= c.x <= a.x)
    &&& (a.y <= c.y <= b.y || b.y <= c.y <= a.y)
}

/// Steps left from `n` along `dir` before leaving the range.
pub open spec fn steps_left(r: Range, n: Point, dir: Point) -> int {
    (if dir.x > 0 {
        r.max.x - n.x
    } else if dir.x < 0 {
        n.x - r.min.x + 1
    } else {
        0
    }) + (if dir.y > 0 {
        r.max.y - n.y
    } else if dir.y < 0 {
        n.y - r.min.y + 1
    } else {
        0
    })
}

/// Whether `to` is one allowed move from `from`: a king's move, or with
/// cardinal moves only an orthogonal step.
pub open spec fn one_move(from: Point, to: Point, diags: bool) -> bool {
    is_move(pt(to.x - from.x, to.y - from.y)) && (diags || to.x == from.x || to.y == from.y)
}

/// The four orthogonal neighbours of `p`, in the order of `card_dirs`.
pub open spec fn card_neighbors(p: Point) -> Seq<Point> {
    seq![pt(p.x + 1, p.y as int), pt(p.x - 1, p.y as int), pt(p.x as int, p.y + 1), pt(p.x as int, p.y - 1)]
}

/// Whether `ans` lists for each of its points the four orthogonal
/// neighbours, and each step cost in `cst` is 1, or -1 for a step into a
/// point that `passable` may call impassable.
pub open spec fn grid_answers_ok<F: Fn(Point) -> bool>(
    passable: &F,
    ans: Map<Point, Seq<Point>>,
    cst: Map<(Point, Point), i32>,
) -> bool {
    &&& forall|p: Point| #[trigger] ans.dom().contains(p) ==> ans[p] == card_neighbors(p)
    &&& forall|e: (Point, Point)| #[trigger] cst.dom().contains(e) ==> cst[e] == 1 || (cst[e] == -1
        && passable.ensures((e.1,), false))
}

/// When a search over orthogonal steps is exhausted without reaching `to`,
/// its nodes give neighbour lists, costs and distances that close it.
proof fn lemma_exhausted_grid_search<F: Fn(Point) -> bool>(
    passable: &F,
    r: Range,
    nodes: Seq<Node>,
    gen: u32,
    ans: Map<int, Seq<Point>>,
    cst: Map<(int, int), i32>,
    from: Point,
    to: Point,
)
    requires
        r.dims_fit(),
        nodes.len() == r.spec_len(),
        r.spec_contains(from),
        r.spec_contains(to),
        links_ok(nodes, gen, PathRange::index_of(r, from)),
        nodes[PathRange::index_of(r, to)].generation != gen,
        forall|i: int| 0 <= i < nodes.len() ==> #[trigger] nodes[i].g >= 0,
        forall|i: int| 0 <= i < nodes.len() && #[trigger] nodes[i].generation == gen ==> !nodes[i].open,
        closed_ok(r, nodes, gen, ans, cst, -1, UNREACHABLE as int),
        forall|i: int| #[trigger] ans.dom().contains(i) ==> 0 <= i < nodes.len() && ans[i] == card_neighbors(r.points_seq()[i]),
        forall|e: (int, int)| #[trigger] cst.dom().contains(e) ==> 0 <= e.0 < nodes.len() && 0 <= e.1 < nodes.len()
            && (cst[e] == 1 || (cst[e] == -1 && passable.ensures((r.points_seq()[e.1],), false))),
    ensures
        exists|pans: Map<Point, Seq<Point>>, pcst: Map<(Point, Point), i32>, dist: Map<Point, int>|
            grid_answers_ok(passable, pans, pcst) && search_closed(r, pans, pcst, dist, from) && !dist.dom().contains(to)
            && forall|w: Seq<Point>| usable_walk(r, pans, pcst, w) && w[0] == from ==> w.last() != to,
{
    let pans = Map::new(|p: Point| r.spec_contains(p) && ans.dom().contains(PathRange::index_of(r, p)), |p: Point| ans[PathRange::index_of(r, p)]);
    let pcst = Map::new(|e: (Point, Point)| r.spec_contains(e.0) && r.spec_contains(e.1) && cst.dom().contains((PathRange::index_of(r, e.0), PathRange::index_of(r, e.1))),
        |e: (Point, Point)| cst[(PathRange::index_of(r, e.0), PathRange::index_of(r, e.1))]);
    let dist = Map::new(|p: Point| r.spec_contains(p) && nodes[PathRange::index_of(r, p)].generation == gen, |p: Point| nodes[PathRange::index_of(r, p)].g as int);
    assert forall|p: Point| #[trigger] pans.dom().contains(p) implies pans[p] == card_neighbors(p) by {
        lemma_point_at_index(r, p);
    }
    assert forall|e: (Point, Point)| #[trigger] pcst.dom().contains(e) implies pcst[e] == 1 || (pcst[e] == -1
        && passable.ensures((e.1,), false)) by {
        lemma_point_at_index(r, e.1);
    }
    assert(grid_answers_ok(passable, pans, pcst));
    lemma_index_of_bounds(r, from);
    lemma_index_of_bounds(r, to);
    assert(dist.dom().contains(from));
    assert forall|p: Point| #[trigger] dist.dom().contains(p) implies {
        &&& r.spec_contains(p)
        &&& pans.dom().contains(p)
        &&& 0 <= dist[p]
        &&& forall|q: Point| #[trigger] pans[p].contains(q) && r.spec_contains(q) ==> pcst.dom().contains((p, q))
            && (pcst[(p, q)] < 0 || dist[p] + pcst[(p, q)] >= UNREACHABLE || (dist.dom().contains(q)
            && dist[q] <= dist[p] + pcst[(p, q)]))
    } by {
        let i = PathRange::index_of(r, p);
        lemma_index_of_bounds(r, p);
        assert(nodes[i].generation == gen);
        assert(ans.dom().contains(i) && expanded_ok(r, nodes, gen, ans, cst, i, ans[i].len() as int, UNREACHABLE as int));
        assert forall|q: Point| #[trigger] pans[p].contains(q) && r.spec_contains(q) implies pcst.dom().contains((p, q))
            && (pcst[(p, q)] < 0 || dist[p] + pcst[(p, q)] >= UNREACHABLE || (dist.dom().contains(q)
            && dist[q] <= dist[p] + pcst[(p, q)])) by {
            let k = choose|k: int| 0 <= k < ans[i].len() && ans[i][k] == q;
            let b = PathRange::index_of(r, q);
            lemma_index_of_bounds(r, q);
            assert(r.spec_contains(ans[i][k]));
            assert(edge_ok(nodes, gen, i, b, cst[(i, b)], UNREACHABLE as int));
        }
    }
    assert(search_closed(r, pans, pcst, dist, from));
    assert(!dist.dom().contains(to));
    assert forall|w: Seq<Point>| usable_walk(r, pans, pcst, w) && w[0] == from implies w.last() != to by {
        lemma_closed_search_walks(r, pans, pcst, dist, from, w);
    }
}

/// The sign of `v`: -1, 0 or 1.
/// The sign of `v` as an integer.
spec fn sign_of(v: int) -> int {
    if v > 0 { 1 } else if v < 0 { -1 } else { 0 }
}

/// The direction in which a jump point search goes on from `p`, reached
/// from `parent`: the move itself, or with only cardinal moves its
/// horizontal part when it has one.
spec fn natural_dir(p: Point, parent: Point, diags: bool) -> Point {
    let dx = sign_of(p.x - parent.x);
    let dy = sign_of(p.y - parent.y);
    if diags || dx == 0 { pt(dx, dy) } else { pt(dx, 0) }
}

fn signum(v: i32) -> (s: i32)
    ensures
        s == (if v > 0 { 1int } else if v < 0 { -1int } else { 0int }),
{
    if v > 0 {
        1
    } else if v < 0 {
        -1
    } else {
        0
    }
}

/// A point in a range stays in `i32` one step away.
proof fn lemma_step_fits(r: Range, p: Point, d: Point)
    requires
        jps_ok(r),
        r.spec_contains(p),
        is_dir(d),
    ensures
        i32::MIN + 1 < p.x + d.x < i32::MAX - 1,
        i32::MIN + 1 < p.y + d.y < i32::MAX - 1,
{
}

impl PathRange {
    /// The heuristic of the search: Chebyshev distance with diagonal moves,
    /// Manhattan distance without.
    fn jps_heuristic(a: Point, b: Point, diags: bool, Ghost(r): Ghost<Range>) -> (h: i32)
        requires
            jps_ok(r),
            r.spec_contains(a),
            r.spec_contains(b),
        ensures
            h == (if diags {
                if abs_int(a.x - b.x) >= abs_int(a.y - b.y) { abs_int(a.x - b.x) } else { abs_int(a.y - b.y) }
            } else {
                abs_int(a.x - b.x) + abs_int(a.y - b.y)
            }),
    {
        if diags {
            let dx: i32 = if a.x >= b.x { a.x - b.x } else { b.x - a.x };
            let dy: i32 = if a.y >= b.y { a.y - b.y } else { b.y - a.y };
            if dx >= dy {
                dx
            } else {
                dy
            }
        } else {
            manhattan(a, b)
        }
    }

    /// Every direction of movement: the four cardinal ones, then with
    /// `diags` the four diagonal ones.
    fn all_dirs(diags: bool) -> (dirs: Vec<Point>)
        ensures
            dirs@.len() == (if diags { 8int } else { 4int }),
            forall|i: int| 0 <= i < dirs@.len() ==> is_move(#[trigger] dirs@[i]),
            !diags ==> dirs@ == card_dirs(),
            forall|d: Point| is_move(d) && (diags || d.x == 0 || d.y == 0) ==> dirs@.contains(d),
    {
        let mut dirs: Vec<Point> = vec![Point::new(1, 0), Point::new(-1, 0), Point::new(0, 1), Point::new(0, -1)];
        if diags {
            dirs.push(Point::new(1, 1));
            dirs.push(Point::new(1, -1));
            dirs.push(Point::new(-1, 1));
            dirs.push(Point::new(-1, -1));
        }
        proof {
            assert forall|d: Point| is_move(d) && (diags || d.x == 0 || d.y == 0) implies dirs@.contains(d) by {
                if d == pt(1, 0) {
                    assert(dirs@[0] == d);
                } else if d == pt(-1, 0) {
                    assert(dirs@[1] == d);
                } else if d == pt(0, 1) {
                    assert(dirs@[2] == d);
                } else if d == pt(0, -1) {
                    assert(dirs@[3] == d);
                } else if d == pt(1, 1) {
                    assert(dirs@[4] == d);
                } else if d == pt(1, -1) {
                    assert(dirs@[5] == d);
                } else if d == pt(-1, 1) {
                    assert(dirs@[6] == d);
                } else {
                    assert(dirs@[7] == d);
                }
            }
        }
        dirs
    }

    /// The directions worth exploring from `p`, reached from `parent`: the
    /// natural continuation of the move and the forced neighbours.
    fn jps_prune_dirs<F: Fn(Point) -> bool>(&self, p: Point, parent: Point, passable: &F, diags: bool) -> (dirs: Vec<Point>)
        requires
            diags,
            jps_ok(self.rng),
            self.rng.spec_contains(p),
            self.rng.spec_contains(parent),
            forall|q: Point| passable.requires((q,)),
        ensures
            forall|i: int| 0 <= i < dirs@.len() ==> is_move(#[trigger] dirs@[i]),
            ({
                let nd = natural_dir(p, parent, diags);
                nd != pt(0, 0) && (forall|b: bool| #[trigger] passable.ensures((pt(p.x + nd.x, p.y + nd.y),), b) ==> b)
                    ==> dirs@.contains(nd)
            }),
    {
        let ghost r = self.rng;
        let mut dirs: Vec<Point> = Vec::new();
        let d = Point::new(signum(p.x - parent.x), signum(p.y - parent.y));
        let ghost mut nd_at: int = 0;
        proof {
            lemma_step_fits(r, p, pt(0, d.y as int));
            lemma_step_fits(r, p, pt(d.x as int, 0));
            lemma_step_fits(r, p, pt(d.x as int, d.y as int));
            lemma_step_fits(r, p, pt(-d.x, 0));
            lemma_step_fits(r, p, pt(-d.x, d.y as int));
            lemma_step_fits(r, p, pt(0, -d.y));
            lemma_step_fits(r, p, pt(d.x as int, -d.y));
            lemma_step_fits(r, p, pt(0, 1));
            lemma_step_fits(r, p, pt(0, -1));
            lemma_step_fits(r, p, pt(1, 0));
            lemma_step_fits(r, p, pt(-1, 0));
            lemma_step_fits(r, p, pt(d.x as int, 1));
            lemma_step_fits(r, p, pt(d.x as int, -1));
            lemma_step_fits(r, p, pt(1, d.y as int));
            lemma_step_fits(r, p, pt(-1, d.y as int));
        }
        if diags {
            if d.x != 0 && d.y != 0 {
                if passable(p + Point::new(0, d.y)) {
                    dirs.push(Point::new(0, d.y));
                }
                if passable(p + Point::new(d.x, 0)) {
                    dirs.push(Point::new(d.x, 0));
                }
                if passable(p + Point::new(d.x, d.y)) {
                    dirs.push(Point::new(d.x, d.y));
                    proof {
                        nd_at = dirs@.len() - 1;
                    }
                }
                if !passable(p + Point::new(-d.x, 0)) && passable(p + Point::new(-d.x, d.y)) {
                    dirs.push(Point::new(-d.x, d.y));
                }
                if !passable(p + Point::new(0, -d.y)) && passable(p + Point::new(d.x, -d.y)) {
                    dirs.push(Point::new(d.x, -d.y));
                }
            } else if d.x != 0 {
                if passable(p + Point::new(d.x, 0)) {
                    dirs.push(Point::new(d.x, 0));
                }
                if !passable(p + Point::new(0, 1)) && passable(p + Point::new(d.x, 1)) {
                    dirs.push(Point::new(d.x, 1));
                }
                if !passable(p + Point::new(0, -1)) && passable(p + Point::new(d.x, -1)) {
                    dirs.push(Point::new(d.x, -1));
                }
            } else if d.y != 0 {
                if passable(p + Point::new(0, d.y)) {
                    dirs.push(Point::new(0, d.y));
                }
                if !passable(p + Point::new(1, 0)) && passable(p + Point::new(1, d.y)) {
                    dirs.push(Point::new(1, d.y));
                }
                if !passable(p + Point::new(-1, 0)) && passable(p + Point::new(-1, d.y)) {
                    dirs.push(Point::new(-1, d.y));
                }
            }
        }
        proof {
            let nd = natural_dir(p, parent, diags);
            if nd != pt(0, 0) && (forall|b: bool| #[trigger] passable.ensures((pt(p.x + nd.x, p.y + nd.y),), b) ==> b) {
                if diags && d.x != 0 && d.y != 0 {
                    assert(dirs@[nd_at] == nd);
                } else {
                    assert(dirs@[0] == nd);
                }
            }
        }
        dirs
    }

    /// Jump along `dir` from `p` until a jump point is found, or the way is
    /// blocked or leaves the range. Gives the jump point and the number of
    /// steps to it.
    fn jps_jump<F: Fn(Point) -> bool>(&self, p: Point, dir: Point, goal: Point, passable: &F, diags: bool) -> (res: Option<(Point, i32)>)
        requires
            jps_ok(self.rng),
            self.rng.spec_contains(p),
            is_move(dir),
            forall|q: Point| passable.requires((q,)),
        ensures
            res matches Some((jp, d)) ==> self.rng.spec_contains(jp) && d >= 1
                && jp.x == p.x + d * dir.x && jp.y == p.y + d * dir.y,
            !self.rng.spec_contains(pt(p.x + dir.x, p.y + dir.y)) ==> res is None,
            (forall|b: bool| #[trigger] passable.ensures((pt(p.x + dir.x, p.y + dir.y),), b) ==> !b) ==> res is None,
            self.rng.spec_contains(goal) && goal == pt(p.x + dir.x, p.y + dir.y)
                && (forall|b: bool| passable.ensures((goal,), b) ==> b) ==> res == Some((goal, 1i32)),
            !diags && self.rng.spec_contains(pt(p.x + dir.x, p.y + dir.y)) ==> (res is None ==> passable.ensures(
                (pt(p.x + dir.x, p.y + dir.y),),
                false,
            )) && (res is Some ==> res == Some((pt(p.x + dir.x, p.y + dir.y), 1i32))),
        decreases (if diags && dir.x != 0 && dir.y != 0 { 1int } else { 0int }),
    {
        let ghost r = self.rng;
        proof {
            lemma_step_fits(r, p, dir);
        }
        let mut n = p + dir;
        let mut dist: i32 = 1;
        loop
            invariant
                jps_ok(r),
                r == self.rng,
                r.spec_contains(p),
                is_move(dir),
                forall|q: Point| passable.requires((q,)),
                i32::MIN + 1 < n.x < i32::MAX - 1,
                i32::MIN + 1 < n.y < i32::MAX - 1,
                r.spec_contains(n) ==> dist + steps_left(r, n, dir) <= steps_left(r, p, dir),
                1 <= dist,
                dist <= steps_left(r, p, dir),
                n.x == p.x + dist * dir.x && n.y == p.y + dist * dir.y,
                dist > 1 ==> r.spec_contains(pt(p.x + dir.x, p.y + dir.y)) && pt(p.x + dir.x, p.y + dir.y) != goal
                    && passable.ensures((pt(p.x + dir.x, p.y + dir.y),), true),
                !diags ==> dist == 1,
            decreases steps_left(r, n, dir) + 1,
        {
            if !self.rng.contains(n) {
                return None;
            }
            let pass_n: bool = passable(n);
            proof {
                if dist == 1 {
                    assert(n == pt(p.x + dir.x, p.y + dir.y));
                }
            }
            if !pass_n {
                return None;
            }
            if n == goal {
                return Some((n, dist));
            }
            if !diags {
                return Some((n, dist));
            }
            proof {
                lemma_step_fits(r, n, pt(-dir.x, 0));
                lemma_step_fits(r, n, pt(-dir.x, dir.y as int));
                lemma_step_fits(r, n, pt(0, -dir.y));
                lemma_step_fits(r, n, pt(dir.x as int, -dir.y));
                lemma_step_fits(r, n, pt(0, 1));
                lemma_step_fits(r, n, pt(0, -1));
                lemma_step_fits(r, n, pt(1, 0));
                lemma_step_fits(r, n, pt(-1, 0));
                lemma_step_fits(r, n, pt(dir.x as int, 1));
                lemma_step_fits(r, n, pt(dir.x as int, -1));
                lemma_step_fits(r, n, pt(1, dir.y as int));
                lemma_step_fits(r, n, pt(-1, dir.y as int));
                lemma_step_fits(r, n, dir);
            }
            if diags && dir.x != 0 && dir.y != 0 {
                if (!passable(n + Point::new(-dir.x, 0)) && passable(n + Point::new(-dir.x, dir.y)))
                    || (!passable(n + Point::new(0, -dir.y)) && passable(n + Point::new(dir.x, -dir.y))) {
                    return Some((n, dist));
                }
                if self.jps_jump(n, Point::new(dir.x, 0), goal, passable, diags).is_some()
                    || self.jps_jump(n, Point::new(0, dir.y), goal, passable, diags).is_some() {
                    return Some((n, dist));
                }
            } else if dir.x != 0 {
                let has_forced: bool = (!passable(n + Point::new(0, 1)) && passable(n + Point::new(dir.x, 1)))
                    || (!passable(n + Point::new(0, -1)) && passable(n + Point::new(dir.x, -1)));
                if has_forced {
                    return Some((n, dist));
                }
            } else {
                let has_forced: bool = (!passable(n + Point::new(1, 0)) && passable(n + Point::new(1, dir.y)))
                    || (!passable(n + Point::new(-1, 0)) && passable(n + Point::new(-1, dir.y)));
                if has_forced {
                    return Some((n, dist));
                }
            }
            proof {
                assert((dist + 1) * dir.x == dist * dir.x + dir.x && (dist + 1) * dir.y == dist * dir.y + dir.y)
                    by (nonlinear_arith);
            }
            n = n + dir;
            dist = dist + 1;
        }
    }

    /// Expand a jump-point path into a step-by-step one: each segment is
    /// walked diagonally first, then straight.
    fn interpolate_path(jp_path: &Vec<Point>, Ghost(r): Ghost<Range>) -> (res: Vec<Point>)
        requires
            jp_path@.len() >= 1,
            jps_ok(r),
            forall|i: int| 0 <= i < jp_path@.len() ==> r.spec_contains(#[trigger] jp_path@[i]),
        ensures
            path_in(r, res@, jp_path@[0], jp_path@.last()),
            unit_steps(res@),
    {
        let ghost jp = jp_path@;
        let mut result: Vec<Point> = Vec::new();
        let mut i: usize = 0;
        while i < jp_path.len() - 1
            invariant
                jp == jp_path@,
                jp.len() >= 1,
                jps_ok(r),
                forall|k: int| 0 <= k < jp.len() ==> r.spec_contains(#[trigger] jp[k]),
                i < jp.len(),
                result@.len() > 0 ==> adjacent(result@.last(), jp[i as int]),
                result@.len() > 0 ==> result@[0] == jp[0],
                result@.len() == 0 ==> jp[i as int] == jp[0],
                unit_steps(result@),
                forall|k: int| 0 <= k < result@.len() ==> r.spec_contains(#[trigger] result@[k]),
            decreases jp.len() - i,
        {
            let a = jp_path[i];
            let b = jp_path[i + 1];
            let dx: i32 = signum(b.x - a.x);
            let dy: i32 = signum(b.y - a.y);
            let mut c = a;
            let mut done: bool = false;
            while c != b
                invariant
                    jps_ok(r),
                    jp.len() >= 1,
                    r.spec_contains(a),
                    r.spec_contains(b),
                    between(a, c, b),
                    dx == (if b.x > a.x { 1int } else if b.x < a.x { -1int } else { 0int }),
                    dy == (if b.y > a.y { 1int } else if b.y < a.y { -1int } else { 0int }),
                    dx == 0 ==> c.x == b.x,
                    dy == 0 ==> c.y == b.y,
                    !done ==> (dx != 0 ==> c.x != b.x),
                    !done ==> (dy != 0 ==> c.y != b.y),
                    done ==> c == b,
                    result@.len() > 0 ==> adjacent(result@.last(), c),
                    result@.len() > 0 ==> result@[0] == jp[0],
                    result@.len() == 0 ==> c == jp[0],
                    unit_steps(result@),
                    forall|k: int| 0 <= k < result@.len() ==> r.spec_contains(#[trigger] result@[k]),
                decreases abs_int(b.x - c.x) + abs_int(b.y - c.y),
            {
                let ghost before = result@;
                result.push(c);
                proof {
                    assert(unit_steps(result@)) by {
                        assert forall|k: int| 0 <= k < result@.len() - 1 implies adjacent(#[trigger] result@[k], result@[k + 1]) by {
                            if k < before.len() - 1 {
                                assert(result@[k] == before[k]);
                                assert(result@[k + 1] == before[k + 1]);
                            }
                        }
                    }
                }
                c = c + Point::new(dx, dy);
                if c.x == b.x {
                    let sy: i32 = signum(b.y - c.y);
                    while c != b
                        invariant
                            jps_ok(r),
                            jp.len() >= 1,
                            r.spec_contains(a),
                            r.spec_contains(b),
                            between(a, c, b),
                            c.x == b.x,
                            result@.len() > 0,
                            adjacent(result@.last(), c),
                            result@[0] == jp[0],
                            unit_steps(result@),
                            forall|k: int| 0 <= k < result@.len() ==> r.spec_contains(#[trigger] result@[k]),
                        decreases abs_int(b.y - c.y),
                    {
                        let ghost before2 = result@;
                        result.push(c);
                        proof {
                            assert forall|k: int| 0 <= k < result@.len() - 1 implies adjacent(#[trigger] result@[k], result@[k + 1]) by {
                                if k < before2.len() - 1 {
                                    assert(result@[k] == before2[k]);
                                    assert(result@[k + 1] == before2[k + 1]);
                                }
                            }
                        }
                        let step: i32 = signum(b.y - c.y);
                        c = c + Point::new(0, step);
                    }
                    done = true;
                } else if c.y == b.y {
                    while c != b
                        invariant
                            jps_ok(r),
                            jp.len() >= 1,
                            r.spec_contains(a),
                            r.spec_contains(b),
                            between(a, c, b),
                            c.y == b.y,
                            result@.len() > 0,
                            adjacent(result@.last(), c),
                            result@[0] == jp[0],
                            unit_steps(result@),
                            forall|k: int| 0 <= k < result@.len() ==> r.spec_contains(#[trigger] result@[k]),
                        decreases abs_int(b.x - c.x),
                    {
                        let ghost before3 = result@;
                        result.push(c);
                        proof {
                            assert forall|k: int| 0 <= k < result@.len() - 1 implies adjacent(#[trigger] result@[k], result@[k + 1]) by {
                                if k < before3.len() - 1 {
                                    assert(result@[k] == before3[k]);
                                    assert(result@[k + 1] == before3[k + 1]);
                                }
                            }
                        }
                        let step: i32 = signum(b.x - c.x);
                        c = c + Point::new(step, 0);
                    }
                    done = true;
                }
            }
            i = i + 1;
        }
        let last = jp_path[jp_path.len() - 1];
        let ghost before4 = result@;
        result.push(last);
        proof {
            assert forall|k: int| 0 <= k < result@.len() - 1 implies adjacent(#[trigger] result@[k], result@[k + 1]) by {
                if k < before4.len() - 1 {
                    assert(result@[k] == before4[k]);
                    assert(result@[k + 1] == before4[k + 1]);
                }
            }
        }
        result
    }

    /// Compute a shortest path from `from` to `to` using Jump Point Search.
    ///
    /// `passable` returns `true` for walkable positions. If `diags` is
    /// `true`, diagonal movement is allowed (8-way); otherwise only cardinal
    /// movement (4-way) is used. Returns the full path, step by step and
    /// including both endpoints, or `None` if unreachable.
    ///
    /// With cardinal moves only, every passable cell is a jump point, so
    /// that the search is exhaustive: when both ends lie in the range and
    /// `None` comes back, either end may be impassable, or the orthogonal
    /// neighbours and the steps that `passable` allowed close a set of
    /// points that holds `from` and not `to`. In either mode, two passable
    /// ends one allowed move apart are always joined.
    #[verifier::spinoff_prover]
    #[verifier::rlimit(60)]
    pub fn jps_path<F: Fn(Point) -> bool>(&mut self, from: Point, to: Point, passable: F, diags: bool) -> (res: Option<Vec<Point>>)
        requires
            old(self).wf(),
            jps_ok(old(self).spec_range()),
            forall|q: Point| passable.requires((q,)),
        ensures
            final(self).wf(),
            final(self).spec_range() == old(self).spec_range(),
            !old(self).spec_range().spec_contains(from) ==> res is None,
            !old(self).spec_range().spec_contains(to) ==> res is None,
            from == to ==> (res is None || (res matches Some(p) && p@ == seq![from])),
            old(self).spec_range().spec_contains(from) && from == to && (forall|b: bool| passable.ensures((from,), b) ==> b)
                ==> (res matches Some(p) && p@ == seq![from]),
            (forall|b: bool| passable.ensures((from,), b) ==> !b) ==> res is None,
            (forall|b: bool| passable.ensures((to,), b) ==> !b) ==> res is None,
            res matches Some(p) ==> path_in(old(self).spec_range(), p@, from, to) && unit_steps(p@),
            !diags && res is Some ==> forall|i: int| 0 <= i < res->0@.len() - 1 ==> spec_manhattan(#[trigger] res->0@[i], res->0@[i + 1]) == 1,
            old(self).spec_range().spec_contains(from) && old(self).spec_range().spec_contains(to)
                && (forall|b: bool| passable.ensures((from,), b) ==> b) && (forall|b: bool| passable.ensures((to,), b) ==> b)
                && one_move(from, to, diags) ==> res is Some,
            !diags && old(self).spec_range().spec_contains(from) && old(self).spec_range().spec_contains(to) && res is None
                ==> passable.ensures((from,), false) || passable.ensures((to,), false)
                || exists|ans: Map<Point, Seq<Point>>, cst: Map<(Point, Point), i32>, dist: Map<Point, int>|
                grid_answers_ok(&passable, ans, cst) && search_closed(old(self).spec_range(), ans, cst, dist, from)
                && !dist.dom().contains(to) && forall|w: Seq<Point>| usable_walk(old(self).spec_range(), ans, cst, w)
                && w[0] == from ==> w.last() != to,
    {
        proof {
            self.lemma_wf();
        }
        let ghost r = self.rng;
        let start_idx: usize = match self.idx(from) {
            Some(i) => i,
            None => {
                return None;
            },
        };
        let goal_idx: usize = match self.idx(to) {
            Some(i) => i,
            None => {
                return None;
            },
        };
        let pass_from: bool = passable(from);
        let pass_to: bool = passable(to);
        if !pass_from || !pass_to {
            return None;
        }
        if start_idx == goal_idx {
            proof {
                lemma_index_injective(r, from, to);
            }
            return Some(vec![from]);
        }
        proof {
            if from == to {
                assert(start_idx == goal_idx);
            }
        }
        let len: usize = self.rng.len();
        let gen: u32 = next_generation(&mut self.astar_nodes, self.astar_generation);
        self.astar_generation = gen;
        let h0: i32 = Self::jps_heuristic(from, to, diags, Ghost(r));
        let ghost k: int = UNREACHABLE as int;
        let start_node = Node { g: 0, f: h0, parent: usize::MAX, generation: gen, open: true };
        self.astar_nodes.set(start_idx, start_node);
        let mut open = MinQueue::new();
        open.push(NodeRef { idx: start_idx, f: h0 });
        let ghost mut ans: Map<int, Seq<Point>> = Map::empty();
        let ghost mut cst: Map<(int, int), i32> = Map::empty();
        let ghost mut stamps: Seq<int> = Seq::new(len as nat, |i: int| 0int);
        let ghost mut tick: int = 1;
        let ghost adj: bool = one_move(from, to, diags) && (forall|b: bool| passable.ensures((to,), b) ==> b);
        proof {
            lemma_point_at_index(r, from);
            lemma_point_at_index(r, to);
            lemma_hsum_nonneg(self.astar_nodes@, gen, k);
            assert(open@[0].idx == start_idx);
        }
        let mut found: bool = false;
        loop
            invariant_except_break
                !found,
                forall|i: int| #![trigger self.astar_nodes@[i]] 0 <= i < len && self.astar_nodes@[i].generation == gen
                    && self.astar_nodes@[i].open ==> exists|j: int| 0 <= j < open@.len() && #[trigger] open@[j].idx == i,
                !diags ==> closed_ok(r, self.astar_nodes@, gen, ans, cst, -1, UNREACHABLE as int),
            invariant
                self.inv(),
                self.rng == r,
                jps_ok(r),
                len == r.spec_len(),
                k == UNREACHABLE as int,
                self.astar_generation == gen,
                start_idx < len,
                goal_idx < len,
                start_idx == PathRange::index_of(r, from),
                goal_idx == PathRange::index_of(r, to),
                r.spec_contains(from),
                r.spec_contains(to),
                r.points_seq()[start_idx as int] == from,
                adj == (one_move(from, to, diags) && (forall|b: bool| passable.ensures((to,), b) ==> b)),
                forall|q: Point| passable.requires((q,)),
                links_ok(self.astar_nodes@, gen, start_idx as int),
                forall|j: int| 0 <= j < open@.len() ==> #[trigger] open@[j].idx < len,
                seq_sum(hseq(self.astar_nodes@, gen, k)) >= 0,
                found ==> self.astar_nodes@[goal_idx as int].generation == gen,
                self.astar_nodes@[goal_idx as int].generation == gen ==> self.astar_nodes@[goal_idx as int].open,
                adj && !self.astar_nodes@[start_idx as int].open ==> self.astar_nodes@[goal_idx as int].generation == gen,
                !diags ==> forall|i: int| #![trigger self.astar_nodes@[i]] 0 <= i < len && self.astar_nodes@[i].generation == gen
                    && self.astar_nodes@[i].parent != usize::MAX ==> spec_manhattan(
                    r.points_seq()[self.astar_nodes@[i].parent as int],
                    r.points_seq()[i],
                ) == 1,
                ranks_ok(self.astar_nodes@, gen, stamps),
                forall|i: int| 0 <= i < stamps.len() ==> #[trigger] stamps[i] < tick,
                forall|i: int| #[trigger] ans.dom().contains(i) ==> 0 <= i < len && ans[i] == card_neighbors(r.points_seq()[i]),
                forall|e: (int, int)| #[trigger] cst.dom().contains(e) ==> 0 <= e.0 < len && 0 <= e.1 < len
                    && (cst[e] == 1 || (cst[e] == -1 && passable.ensures((r.points_seq()[e.1],), false))),
            ensures
                !found ==> open@.len() == 0,
                !found ==> forall|i: int| #![trigger self.astar_nodes@[i]] 0 <= i < len && self.astar_nodes@[i].generation == gen
                    && self.astar_nodes@[i].open ==> exists|j: int| 0 <= j < open@.len() && #[trigger] open@[j].idx == i,
                !found && !diags ==> closed_ok(r, self.astar_nodes@, gen, ans, cst, -1, UNREACHABLE as int),
            decreases 2 * seq_sum(hseq(self.astar_nodes@, gen, k)) + open@.len(),
        {
            let ghost q0 = open@;
            let cur = match open.pop_min() {
                Some(c) => c,
                None => {
                    break;
                },
            };
            let ci: usize = cur.idx;
            proof {
                let kk = choose|kk: int| 0 <= kk < q0.len() && q0[kk] == cur && open@ == q0.update(kk, q0.last()).drop_last() && (forall|j: int| 0 <= j < q0.len() ==> cur.f <= #[trigger] q0[j].f);
                assert forall|i: int| #![trigger self.astar_nodes@[i]] 0 <= i < len && self.astar_nodes@[i].generation == gen
                    && self.astar_nodes@[i].open && i != ci implies exists|j: int| 0 <= j < open@.len() && #[trigger] open@[j].idx == i by {
                    lemma_pop_keeps(q0, kk, i as usize);
                }
                assert forall|j: int| 0 <= j < open@.len() implies #[trigger] open@[j].idx < len by {
                    if j == kk {
                        assert(open@[j] == q0.last());
                    } else {
                        assert(open@[j] == q0[j]);
                    }
                }
            }
            let cn = self.astar_nodes[ci];
            if cn.generation != gen || !cn.open {
                continue;
            }
            if ci == goal_idx {
                found = true;
                break;
            }
            let mut closed = cn;
            closed.open = false;
            proof {
                lemma_hsum_update(self.astar_nodes@, gen, k, ci as int, closed);
            }
            let ghost nodes0 = self.astar_nodes@;
            self.astar_nodes.set(ci, closed);
            let cp = self.point(ci);
            proof {
                lemma_hsum_nonneg(self.astar_nodes@, gen, k);
                assert forall|i: int| #![trigger self.astar_nodes@[i]] 0 <= i < len && self.astar_nodes@[i].generation == gen
                    && self.astar_nodes@[i].parent != usize::MAX implies rank_lt(self.astar_nodes@, stamps, self.astar_nodes@[i].parent as int, i) by {
                    assert(rank_lt(nodes0, stamps, nodes0[i].parent as int, i));
                }
                if !diags {
                    assert forall|i: int| #![trigger self.astar_nodes@[i]] 0 <= i < len && self.astar_nodes@[i].generation == gen
                        && self.astar_nodes@[i].parent != usize::MAX implies spec_manhattan(
                        r.points_seq()[self.astar_nodes@[i].parent as int],
                        r.points_seq()[i],
                    ) == 1 by {
                        assert(nodes0[i].parent == self.astar_nodes@[i].parent && nodes0[i].generation == gen);
                    }
                    lemma_closed_update_close(r, nodes0, gen, ans, cst, ci as int, closed, UNREACHABLE as int);
                    lemma_closed_new_answer(r, self.astar_nodes@, gen, ans, cst, ci as int, card_neighbors(cp), UNREACHABLE as int);
                    ans = ans.insert(ci as int, card_neighbors(cp));
                }
            }
            let cur_g: i32 = cn.g;
            let dirs: Vec<Point> = if cn.parent == usize::MAX || !diags {
                Self::all_dirs(diags)
            } else {
                let pp = self.point(cn.parent);
                self.jps_prune_dirs(cp, pp, &passable, diags)
            };
            proof {
                if ci == start_idx {
                    assert(cn.parent == usize::MAX);
                }
            }
            let ghost h1 = seq_sum(hseq(self.astar_nodes@, gen, k));
            let ghost q1 = open@.len();
            let ghost dto = pt(to.x - from.x, to.y - from.y);
            let mut t: usize = 0;
            while t < dirs.len()
                invariant
                    self.inv(),
                    self.rng == r,
                    jps_ok(r),
                    len == r.spec_len(),
                    k == UNREACHABLE as int,
                    self.astar_generation == gen,
                    start_idx < len,
                    goal_idx < len,
                    start_idx == PathRange::index_of(r, from),
                    goal_idx == PathRange::index_of(r, to),
                    ci < len,
                    ci != goal_idx,
                    cp == r.points_seq()[ci as int],
                    r.spec_contains(cp),
                    r.spec_contains(to),
                    r.spec_contains(from),
                    r.points_seq()[start_idx as int] == from,
                    adj == (one_move(from, to, diags) && (forall|b: bool| passable.ensures((to,), b) ==> b)),
                    dto == pt(to.x - from.x, to.y - from.y),
                    0 <= cur_g < UNREACHABLE,
                    forall|q: Point| passable.requires((q,)),
                    forall|j: int| 0 <= j < dirs@.len() ==> is_move(#[trigger] dirs@[j]),
                    !diags ==> dirs@ == card_dirs(),
                    ci == start_idx ==> forall|d: Point| is_move(d) && (diags || d.x == 0 || d.y == 0) ==> dirs@.contains(d),
                    links_ok(self.astar_nodes@, gen, start_idx as int),
                    self.astar_nodes@[ci as int].generation == gen,
                    !self.astar_nodes@[ci as int].open,
                    self.astar_nodes@[ci as int].g == cur_g,
                    forall|j: int| 0 <= j < open@.len() ==> #[trigger] open@[j].idx < len,
                    seq_sum(hseq(self.astar_nodes@, gen, k)) >= 0,
                    t <= dirs@.len(),
                    2 * seq_sum(hseq(self.astar_nodes@, gen, k)) + open@.len() <= 2 * h1 + q1,
                    self.astar_nodes@[goal_idx as int].generation == gen ==> self.astar_nodes@[goal_idx as int].open,
                    ci != start_idx && adj && !self.astar_nodes@[start_idx as int].open ==> self.astar_nodes@[goal_idx as int].generation == gen,
                    ci == start_idx && adj && dirs@.subrange(0, t as int).contains(dto) ==> self.astar_nodes@[goal_idx as int].generation == gen,
                    !diags ==> forall|i: int| #![trigger self.astar_nodes@[i]] 0 <= i < len && self.astar_nodes@[i].generation == gen
                        && self.astar_nodes@[i].parent != usize::MAX ==> spec_manhattan(
                        r.points_seq()[self.astar_nodes@[i].parent as int],
                        r.points_seq()[i],
                    ) == 1,
                    forall|i: int| #![trigger self.astar_nodes@[i]] 0 <= i < len && self.astar_nodes@[i].generation == gen
                        && self.astar_nodes@[i].open ==> exists|j: int| 0 <= j < open@.len() && #[trigger] open@[j].idx == i,
                    !diags ==> ans.dom().contains(ci as int) && ans[ci as int] == card_neighbors(cp),
                    !diags ==> closed_ok(r, self.astar_nodes@, gen, ans, cst, ci as int, UNREACHABLE as int),
                    !diags ==> expanded_ok(r, self.astar_nodes@, gen, ans, cst, ci as int, t as int, UNREACHABLE as int),
                    ranks_ok(self.astar_nodes@, gen, stamps),
                    forall|i: int| 0 <= i < stamps.len() ==> #[trigger] stamps[i] < tick,
                    forall|i: int| #[trigger] ans.dom().contains(i) ==> 0 <= i < len && ans[i] == card_neighbors(r.points_seq()[i]),
                    forall|e: (int, int)| #[trigger] cst.dom().contains(e) ==> 0 <= e.0 < len && 0 <= e.1 < len
                        && (cst[e] == 1 || (cst[e] == -1 && passable.ensures((r.points_seq()[e.1],), false))),
                decreases dirs@.len() - t,
            {
                let dir = dirs[t];
                t = t + 1;
                let ghost np = pt(cp.x + dir.x, cp.y + dir.y);
                proof {
                    assert(dirs@.subrange(0, t as int) =~= dirs@.subrange(0, t - 1).push(dir));
                    if !diags {
                        assert(card_neighbors(cp)[t - 1] == np);
                    }
                }
                let (jp, dist) = match self.jps_jump(cp, dir, to, &passable, diags) {
                    Some(j) => j,
                    None => {
                        proof {
                            if !diags {
                                if !r.spec_contains(np) {
                                    lemma_expanded_skip(r, self.astar_nodes@, gen, ans, cst, ci as int, (t - 1) as int, UNREACHABLE as int);
                                } else {
                                    lemma_point_at_index(r, np);
                                    lemma_index_of_bounds(r, np);
                                    let ni = PathRange::index_of(r, np);
                                    lemma_expanded_step(r, self.astar_nodes@, gen, ans, cst, ci as int, (t - 1) as int, ni, -1i32, UNREACHABLE as int);
                                    cst = cst.insert((ci as int, ni), -1i32);
                                }
                            }
                            if ci == start_idx && adj && dir == dto {
                                assert(to == np);
                            }
                        }
                        continue;
                    },
                };
                let ji: usize = match self.idx(jp) {
                    Some(j) => j,
                    None => {
                        continue;
                    },
                };
                proof {
                    lemma_point_at_index(r, jp);
                    if ci == start_idx && adj && dir == dto {
                        assert(to == np);
                        assert(jp == to);
                    }
                }
                let t64: i64 = cur_g as i64 + dist as i64;
                if t64 >= UNREACHABLE as i64 {
                    proof {
                        if !diags {
                            lemma_expanded_step(r, self.astar_nodes@, gen, ans, cst, ci as int, (t - 1) as int, ji as int, 1i32, UNREACHABLE as int);
                            cst = cst.insert((ci as int, ji as int), 1i32);
                        }
                    }
                    continue;
                }
                let tentative: i32 = t64 as i32;
                let jn = self.astar_nodes[ji];
                if jn.generation == gen && tentative >= jn.g {
                    proof {
                        if !diags {
                            lemma_expanded_step(r, self.astar_nodes@, gen, ans, cst, ci as int, (t - 1) as int, ji as int, 1i32, UNREACHABLE as int);
                            cst = cst.insert((ci as int, ji as int), 1i32);
                        }
                    }
                    continue;
                }
                let hj: i32 = Self::jps_heuristic(jp, to, diags, Ghost(r));
                let f64v: i64 = tentative as i64 + hj as i64;
                let f: i32 = if f64v > i32::MAX as i64 { i32::MAX } else { f64v as i32 };
                let updated = Node { g: tentative, f, parent: ci, generation: gen, open: true };
                proof {
                    lemma_hsum_update(self.astar_nodes@, gen, k, ji as int, updated);
                    if ji == start_idx {
                        assert(self.astar_nodes@[start_idx as int].g == 0);
                    }
                    assert(ji != ci);
                    if !diags {
                        lemma_closed_update(r, self.astar_nodes@, gen, ans, cst, ci as int, (t - 1) as int, ji as int, updated, UNREACHABLE as int);
                    }
                    lemma_rank_update(self.astar_nodes@, gen, start_idx as int, stamps, tick, ji as int, updated);
                    stamps = stamps.update(ji as int, tick);
                    tick = tick + 1;
                }
                let ghost nodes1 = self.astar_nodes@;
                let ghost oq = open@;
                self.astar_nodes.set(ji, updated);
                open.push(NodeRef { idx: ji, f });
                proof {
                    lemma_hsum_nonneg(self.astar_nodes@, gen, k);
                    if !diags {
                        lemma_expanded_step(r, self.astar_nodes@, gen, ans, cst, ci as int, (t - 1) as int, ji as int, 1i32, UNREACHABLE as int);
                        cst = cst.insert((ci as int, ji as int), 1i32);
                    }
                    assert(open@[open@.len() - 1].idx == ji);
                    assert forall|i: int| #![trigger self.astar_nodes@[i]] 0 <= i < len && self.astar_nodes@[i].generation == gen
                        && self.astar_nodes@[i].open implies exists|j: int| 0 <= j < open@.len() && #[trigger] open@[j].idx == i by {
                        if i != ji {
                            assert(nodes1[i] == self.astar_nodes@[i]);
                            let j = choose|j: int| 0 <= j < oq.len() && #[trigger] oq[j].idx == i;
                            assert(open@[j] == oq[j]);
                        }
                    }
                    if !diags {
                        assert(jp == np);
                        assert forall|i: int| #![trigger self.astar_nodes@[i]] 0 <= i < len && self.astar_nodes@[i].generation == gen
                            && self.astar_nodes@[i].parent != usize::MAX implies spec_manhattan(
                            r.points_seq()[self.astar_nodes@[i].parent as int],
                            r.points_seq()[i],
                        ) == 1 by {
                            if i != ji {
                                assert(nodes1[i] == self.astar_nodes@[i]);
                            }
                        }
                    }
                }
            }
            proof {
                if !diags {
                    lemma_closed_finish(r, self.astar_nodes@, gen, ans, cst, ci as int, UNREACHABLE as int);
                }
                if ci == start_idx && adj {
                    assert(dirs@.subrange(0, dirs@.len() as int) =~= dirs@);
                    assert(dirs@.contains(dto));
                }
            }
        }
        proof {
            self.lemma_wf();
        }
        if !found {
            proof {
                assert forall|i: int| 0 <= i < self.astar_nodes@.len() && #[trigger] self.astar_nodes@[i].generation == gen
                    implies !self.astar_nodes@[i].open by {
                    if self.astar_nodes@[i].open {
                        let j = choose|j: int| 0 <= j < open@.len() && #[trigger] open@[j].idx == i;
                    }
                }
                assert(!self.astar_nodes@[start_idx as int].open);
                if !diags {
                    lemma_exhausted_grid_search(&passable, r, self.astar_nodes@, gen, ans, cst, from, to);
                }
            }
            return None;
        }
        proof {
            vstd::set_lib::lemma_int_range(0, len as int);
            vstd::set_lib::lemma_len_subset(
                nodes_before(self.astar_nodes@, gen, stamps, goal_idx as int),
                vstd::set_lib::set_int_range(0, len as int),
            );
            lemma_reaches_root(self.astar_nodes@, gen, start_idx as int, stamps, goal_idx as int, len as nat);
        }
        let jp_path = match self.trace_path(start_idx, goal_idx) {
            Some(p) => p,
            None => {
                return None;
            },
        };
        proof {
            lemma_point_at_index(r, from);
            lemma_point_at_index(r, to);
        }
        if !diags {
            proof {
                assert forall|i: int| 0 <= i < jp_path@.len() - 1 implies spec_manhattan(#[trigger] jp_path@[i], jp_path@[i + 1]) == 1 by {
                    assert(parent_link(r, self.astar_nodes@, gen, jp_path@[i], jp_path@[i + 1]));
                    let j = choose|j: int|
                        0 <= j < self.astar_nodes@.len() && self.astar_nodes@[j].generation == gen && self.astar_nodes@[j].parent != usize::MAX
                            && #[trigger] r.points_seq()[j] == jp_path@[i + 1] && r.points_seq()[self.astar_nodes@[j].parent as int] == jp_path@[i];
                    assert(self.astar_nodes@[j].generation == gen);
                }
                assert forall|i: int| 0 <= i < jp_path@.len() - 1 implies adjacent(#[trigger] jp_path@[i], jp_path@[i + 1]) by {
                    assert(spec_manhattan(jp_path@[i], jp_path@[i + 1]) == 1);
                }
            }
            return Some(jp_path);
        }
        let path = Self::interpolate_path(&jp_path, Ghost(r));
        Some(path)
    }
}

} // verus!
