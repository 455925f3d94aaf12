//! Breadth-first distance maps.
use vstd::prelude::*;

use crate::geom::{Point, Range};
use crate::paths::pathrange::{PathRange, PathNode, UNREACHABLE, count_eq, lemma_count_update, lemma_index_injective, lemma_index_of_bounds};
use crate::grid::lemma_index_in_bounds;
use crate::paths::traits::{Pather, neighbor_list, is_answer};
use crate::paths::astar::is_walk;
use crate::paths::cc::{lemma_walk_insert, lemma_walk_push};
use crate::paths::pathrange::lemma_point_at_index;

verus! {

/// A sequence of `n` copies of `v` holds `n` entries equal to `v`.
pub proof fn lemma_count_all(s: Seq<i32>, v: i32)
    requires
        forall|i: int| 0 <= i < s.len() ==> s[i] == v,
    ensures
        count_eq(s, v) == s.len(),
    decreases s.len(),
{
    if s.len() > 0 {
        lemma_count_all(s.drop_last(), v);
    }
}

/// No sequence holds more entries equal to `v` than it has entries.
pub proof fn lemma_count_le(s: Seq<i32>, v: i32)
    ensures
        count_eq(s, v) <= s.len(),
    decreases s.len(),
{
    if s.len() > 0 {
        lemma_count_le(s.drop_last(), v);
    }
}

/// Entry `k` of the search: its queue index is the cell of its position,
/// the map holds its cost, and its cost is at most `k` and `cap`.
pub open spec fn bfs_entry(r: Range, m: Seq<i32>, q: Seq<usize>, res: Seq<PathNode>, cap: int, k: int) -> bool {
    &&& q[k] < r.spec_len()
    &&& q[k] == PathRange::index_of(r, res[k].pos)
    &&& r.spec_contains(res[k].pos)
    &&& m[q[k] as int] == res[k].cost
    &&& 0 <= res[k].cost <= k
    &&& res[k].cost <= cap
}

/// The invariant of the breadth-first search: the queue is the sequence of
/// the results' indices, results come in non-decreasing cost, each marked
/// cell of the map is a result, and the cells not yet marked are counted.
pub open spec fn bfs_inv(r: Range, m: Seq<i32>, q: Seq<usize>, res: Seq<PathNode>, cap: int) -> bool {
    let len = r.spec_len();
    &&& m.len() == len
    &&& q.len() == res.len()
    &&& count_eq(m, UNREACHABLE) + res.len() == len
    &&& forall|k: int| 0 <= k < q.len() ==> #[trigger] bfs_entry(r, m, q, res, cap, k)
    &&& forall|a: int, b: int| 0 <= a < b < res.len() ==> #[trigger] res[a].cost <= #[trigger] res[b].cost
    &&& forall|a: int, b: int| 0 <= a < b < q.len() ==> #[trigger] q[a] != #[trigger] q[b]
    &&& forall|i: int| 0 <= i < len && #[trigger] m[i] != UNREACHABLE ==> exists|k: int| 0 <= k < q.len() && #[trigger] q[k] == i
}

/// Whether the first `head` results have been expanded: `ans` holds, for
/// exactly their points, lists that `pather` may give, and every result is
/// the end of a walk along `ans` from a source, with as many steps as its
/// cost.
pub open spec fn bfs_known<P: Pather>(
    pather: &P,
    r: Range,
    res: Seq<PathNode>,
    head: int,
    ans: Map<Point, Seq<Point>>,
    sources: Seq<Point>,
) -> bool {
    &&& forall|q: Point| #[trigger] ans.dom().contains(q) ==> is_answer(pather, q, ans[q])
    &&& forall|q: Point| #[trigger] ans.dom().contains(q) <==> exists|k: int| 0 <= k < head && res[k].pos == q
    &&& forall|k: int| #![trigger res[k]] 0 <= k < res.len() ==> walk_to(r, ans, sources, res[k].pos, res[k].cost as int)
}

/// Whether `p` ends a walk along `ans` from one of `sources` with `c` steps.
pub open spec fn walk_to(r: Range, ans: Map<Point, Seq<Point>>, sources: Seq<Point>, p: Point, c: int) -> bool {
    exists|w: Seq<Point>| #[trigger] is_walk(r, ans, w) && sources.contains(w[0]) && w.last() == p && w.len() - 1 == c
}

/// Whether every listed neighbour in the range of an expanded point below
/// `cap`, but for `cur`, was reached at most one step further, and so was
/// each of the first `upto` of `cur`.
pub open spec fn bfs_closed(r: Range, m: Seq<i32>, ans: Map<Point, Seq<Point>>, cap: int, cur: Point, upto: int) -> bool {
    &&& forall|q: Point, x: Point| #[trigger] ans.dom().contains(q) && #[trigger] ans[q].contains(x) && r.spec_contains(x)
        && q != cur && m[PathRange::index_of(r, q)] < cap ==> m[PathRange::index_of(r, x)] != UNREACHABLE
        && m[PathRange::index_of(r, x)] <= m[PathRange::index_of(r, q)] + 1
    &&& ans.dom().contains(cur) ==> upto <= ans[cur].len() && forall|j: int| 0 <= j < upto && r.spec_contains(#[trigger] ans[cur][j])
        && m[PathRange::index_of(r, cur)] < cap ==> m[PathRange::index_of(r, ans[cur][j])] != UNREACHABLE
        && m[PathRange::index_of(r, ans[cur][j])] <= m[PathRange::index_of(r, cur)] + 1
}

/// Whether every listed neighbour in the range of an expanded point below
/// `cap` was reached at most one step further.
pub open spec fn bfs_closed_full(r: Range, m: Seq<i32>, ans: Map<Point, Seq<Point>>, cap: int) -> bool {
    forall|q: Point, x: Point| #[trigger] ans.dom().contains(q) && #[trigger] ans[q].contains(x) && r.spec_contains(x)
        && m[PathRange::index_of(r, q)] < cap ==> m[PathRange::index_of(r, x)] != UNREACHABLE
        && m[PathRange::index_of(r, x)] <= m[PathRange::index_of(r, q)] + 1
}

/// The results hold distinct points, each with its cost in the map.
proof fn lemma_bfs_entries(r: Range, m: Seq<i32>, q: Seq<usize>, res: Seq<PathNode>, cap: int, a: int, b: int)
    requires
        bfs_inv(r, m, q, res, cap),
        0 <= a < res.len(),
        0 <= b < res.len(),
        a != b,
        r.spec_len() < i32::MAX,
    ensures
        res[a].pos != res[b].pos,
        m[PathRange::index_of(r, res[a].pos)] == res[a].cost,
        res[a].cost != UNREACHABLE,
{
    assert(bfs_entry(r, m, q, res, cap, a));
    assert(bfs_entry(r, m, q, res, cap, b));
    if a < b {
        assert(q[a] != q[b]);
    } else {
        assert(q[b] != q[a]);
    }
}

/// Expanding result `head`: its point gets its list.
proof fn lemma_bfs_expand<P: Pather>(
    pather: &P,
    r: Range,
    m: Seq<i32>,
    q: Seq<usize>,
    res: Seq<PathNode>,
    cap: int,
    head: int,
    ans: Map<Point, Seq<Point>>,
    sources: Seq<Point>,
    s: Seq<Point>,
)
    requires
        bfs_inv(r, m, q, res, cap),
        bfs_known(pather, r, res, head, ans, sources),
        bfs_closed_full(r, m, ans, cap),
        0 <= head < res.len(),
        is_answer(pather, res[head].pos, s),
        r.spec_len() < i32::MAX,
    ensures
        bfs_known(pather, r, res, head + 1, ans.insert(res[head].pos, s), sources),
        bfs_closed(r, m, ans.insert(res[head].pos, s), cap, res[head].pos, 0),
{
    let cp = res[head].pos;
    let a2 = ans.insert(cp, s);
    assert(!ans.dom().contains(cp)) by {
        if ans.dom().contains(cp) {
            let k = choose|k: int| 0 <= k < head && res[k].pos == cp;
            lemma_bfs_entries(r, m, q, res, cap, k, head);
        }
    }
    assert forall|x: Point| #[trigger] a2.dom().contains(x) <==> exists|k: int| 0 <= k < head + 1 && res[k].pos == x by {
        if a2.dom().contains(x) && x != cp {
            let k = choose|k: int| 0 <= k < head && res[k].pos == x;
        }
        if exists|k: int| 0 <= k < head + 1 && res[k].pos == x {
            let k = choose|k: int| 0 <= k < head + 1 && res[k].pos == x;
            if k < head {
                assert(ans.dom().contains(x));
            }
        }
    }
    assert forall|k: int| #![trigger res[k]] 0 <= k < res.len() implies walk_to(r, a2, sources, res[k].pos, res[k].cost as int) by {
        let w = choose|w: Seq<Point>| #[trigger] is_walk(r, ans, w) && sources.contains(w[0])
            && w.last() == res[k].pos && w.len() - 1 == res[k].cost;
        lemma_walk_insert(r, ans, cp, s, w);
    }
    assert forall|x: Point, y: Point| #[trigger] a2.dom().contains(x) && #[trigger] a2[x].contains(y) && r.spec_contains(y)
        && x != cp && m[PathRange::index_of(r, x)] < cap implies m[PathRange::index_of(r, y)] != UNREACHABLE
        && m[PathRange::index_of(r, y)] <= m[PathRange::index_of(r, x)] + 1 by {
        assert(ans.dom().contains(x) && ans[x] == a2[x]);
    }
}

/// A listed neighbour out of the range, or one already reached at most a
/// step further, or one past the cap, extends the expansion of `cur`.
proof fn lemma_bfs_step_keep(r: Range, m: Seq<i32>, ans: Map<Point, Seq<Point>>, cap: int, cur: Point, t: int)
    requires
        bfs_closed(r, m, ans, cap, cur, t),
        ans.dom().contains(cur),
        0 <= t < ans[cur].len(),
        r.spec_contains(ans[cur][t]) && m[PathRange::index_of(r, cur)] < cap ==> m[PathRange::index_of(r, ans[cur][t])]
            != UNREACHABLE && m[PathRange::index_of(r, ans[cur][t])] <= m[PathRange::index_of(r, cur)] + 1,
    ensures
        bfs_closed(r, m, ans, cap, cur, t + 1),
{
}

/// Reaching a fresh listed neighbour of result `head` one step further
/// keeps the results explained by walks.
proof fn lemma_bfs_known_push<P: Pather>(
    pather: &P,
    r: Range,
    res: Seq<PathNode>,
    head: int,
    ans: Map<Point, Seq<Point>>,
    sources: Seq<Point>,
    np: Point,
    nd: i32,
)
    requires
        bfs_known(pather, r, res, head + 1, ans, sources),
        0 <= head < res.len(),
        ans.dom().contains(res[head].pos),
        ans[res[head].pos].contains(np),
        r.spec_contains(np),
        nd == res[head].cost + 1,
    ensures
        bfs_known(pather, r, res.push(PathNode { pos: np, cost: nd }), head + 1, ans, sources),
{
    let res2 = res.push(PathNode { pos: np, cost: nd });
    assert forall|x: Point| #[trigger] ans.dom().contains(x) <==> exists|k: int| 0 <= k < head + 1 && res2[k].pos == x by {
        if ans.dom().contains(x) {
            let k = choose|k: int| 0 <= k < head + 1 && res[k].pos == x;
            assert(res2[k] == res[k]);
        }
        if exists|k: int| 0 <= k < head + 1 && res2[k].pos == x {
            let k = choose|k: int| 0 <= k < head + 1 && res2[k].pos == x;
            assert(res2[k] == res[k]);
        }
    }
    assert(res[head] == res[head]);
    let wc = choose|w: Seq<Point>| #[trigger] is_walk(r, ans, w) && sources.contains(w[0]) && w.last() == res[head].pos
        && w.len() - 1 == res[head].cost;
    lemma_walk_push(r, ans, wc, np);
    assert forall|k: int| #![trigger res2[k]] 0 <= k < res2.len() implies walk_to(r, ans, sources, res2[k].pos, res2[k].cost as int) by {
        if k < res.len() {
            assert(res2[k] == res[k]);
        } else {
            assert(is_walk(r, ans, wc.push(np)));
        }
    }
}

/// Every expanded point was reached.
proof fn lemma_bfs_dom_reached<P: Pather>(
    pather: &P,
    r: Range,
    m: Seq<i32>,
    q: Seq<usize>,
    res: Seq<PathNode>,
    cap: int,
    head: int,
    ans: Map<Point, Seq<Point>>,
    sources: Seq<Point>,
)
    requires
        bfs_inv(r, m, q, res, cap),
        bfs_known(pather, r, res, head, ans, sources),
        0 <= head <= res.len(),
        r.spec_len() < i32::MAX,
    ensures
        forall|x: Point| #[trigger] ans.dom().contains(x) ==> r.spec_contains(x) && m[PathRange::index_of(r, x)] != UNREACHABLE,
{
    assert forall|x: Point| #[trigger] ans.dom().contains(x) implies r.spec_contains(x) && m[PathRange::index_of(r, x)]
        != UNREACHABLE by {
        let k = choose|k: int| 0 <= k < head && res[k].pos == x;
        assert(bfs_entry(r, m, q, res, cap, k));
    }
}

/// Reaching a fresh listed neighbour of `cur` one step further extends its
/// expansion.
proof fn lemma_bfs_closed_push(r: Range, m: Seq<i32>, ans: Map<Point, Seq<Point>>, cap: int, cur: Point, t: int, ni: usize, np: Point, nd: i32)
    requires
        bfs_closed(r, m, ans, cap, cur, t),
        m.len() == r.spec_len(),
        ans.dom().contains(cur),
        0 <= t < ans[cur].len(),
        ans[cur][t] == np,
        r.spec_contains(np),
        ni as int == PathRange::index_of(r, np),
        m[ni as int] == UNREACHABLE,
        forall|x: Point| #[trigger] ans.dom().contains(x) ==> r.spec_contains(x) && m[PathRange::index_of(r, x)] != UNREACHABLE,
        nd == m[PathRange::index_of(r, cur)] + 1,
        nd < UNREACHABLE,
    ensures
        bfs_closed(r, m.update(ni as int, nd), ans, cap, cur, t + 1),
{
    let m2 = m.update(ni as int, nd);
    lemma_index_of_bounds(r, np);
    assert forall|x: Point, y: Point| #[trigger] ans.dom().contains(x) && #[trigger] ans[x].contains(y) && r.spec_contains(y)
        && x != cur && m2[PathRange::index_of(r, x)] < cap implies m2[PathRange::index_of(r, y)] != UNREACHABLE
        && m2[PathRange::index_of(r, y)] <= m2[PathRange::index_of(r, x)] + 1 by {
        lemma_index_of_bounds(r, x);
        lemma_index_of_bounds(r, y);
        assert(m2[PathRange::index_of(r, x)] == m[PathRange::index_of(r, x)]);
        assert(m[PathRange::index_of(r, y)] != UNREACHABLE);
    }
    lemma_index_of_bounds(r, cur);
    assert(m2[PathRange::index_of(r, cur)] == m[PathRange::index_of(r, cur)]);
    assert forall|j: int| 0 <= j < t + 1 && r.spec_contains(#[trigger] ans[cur][j]) && m2[PathRange::index_of(r, cur)] < cap
        implies m2[PathRange::index_of(r, ans[cur][j])] != UNREACHABLE
        && m2[PathRange::index_of(r, ans[cur][j])] <= m2[PathRange::index_of(r, cur)] + 1 by {
        lemma_index_of_bounds(r, ans[cur][j]);
        if j < t {
            assert(m[PathRange::index_of(r, ans[cur][j])] != UNREACHABLE);
            assert(PathRange::index_of(r, ans[cur][j]) != ni as int);
            assert(m2[PathRange::index_of(r, ans[cur][j])] == m[PathRange::index_of(r, ans[cur][j])]);
        } else {
            assert(ans[cur][j] == np);
            assert(m2[ni as int] == nd);
        }
    }
}

/// Once every listed neighbour of `cur` is handled, every expanded point is
/// closed.
proof fn lemma_bfs_closed_finish(r: Range, m: Seq<i32>, ans: Map<Point, Seq<Point>>, cap: int, cur: Point)
    requires
        ans.dom().contains(cur),
        bfs_closed(r, m, ans, cap, cur, ans[cur].len() as int),
    ensures
        bfs_closed_full(r, m, ans, cap),
{
    assert forall|x: Point, y: Point| #[trigger] ans.dom().contains(x) && #[trigger] ans[x].contains(y) && r.spec_contains(y)
        && m[PathRange::index_of(r, x)] < cap implies m[PathRange::index_of(r, y)] != UNREACHABLE
        && m[PathRange::index_of(r, y)] <= m[PathRange::index_of(r, x)] + 1 by {
        if x == cur {
            let j = choose|j: int| 0 <= j < ans[cur].len() && ans[cur][j] == y;
        }
    }
}

/// The sources alone, each a one-point walk, start the search.
proof fn lemma_bfs_known_start<P: Pather>(pather: &P, r: Range, res: Seq<PathNode>, sources: Seq<Point>, e: Map<Point, Seq<Point>>)
    requires
        forall|k: int| 0 <= k < res.len() ==> r.spec_contains(#[trigger] res[k].pos) && res[k].cost == 0
            && sources.contains(res[k].pos),
        e == Map::<Point, Seq<Point>>::empty(),
    ensures
        bfs_known(pather, r, res, 0, e, sources),
{
    assert forall|x: Point| #[trigger] e.dom().contains(x) <==> exists|k: int| 0 <= k < 0 && res[k].pos == x by {}
    assert forall|k: int| #![trigger res[k]] 0 <= k < res.len() implies walk_to(r, e, sources, res[k].pos, res[k].cost as int) by {
        let w = seq![res[k].pos];
        assert(is_walk(r, e, w));
        assert(w.last() == res[k].pos);
        assert(w[0] == res[k].pos);
        assert(sources.contains(w[0]));
        assert(is_walk(r, e, w) && sources.contains(w[0]) && w.last() == res[k].pos && w.len() - 1 == res[k].cost);
    }
}

/// Every walk from a source along the lists of an exhausted search, no
/// longer than the cap, ends at a reached point no further than its steps.
proof fn lemma_bfs_walks(r: Range, m: Seq<i32>, ans: Map<Point, Seq<Point>>, sources: Seq<Point>, cap: int, w: Seq<Point>)
    requires
        m.len() == r.spec_len(),
        bfs_closed_full(r, m, ans, cap),
        forall|x: Point| r.spec_contains(x) && m[PathRange::index_of(r, x)] != UNREACHABLE ==> #[trigger] ans.dom().contains(x),
        forall|t: int| 0 <= t < sources.len() && r.spec_contains(#[trigger] sources[t]) ==> m[PathRange::index_of(r, sources[t])] == 0,
        is_walk(r, ans, w),
        sources.contains(w[0]),
        w.len() - 1 <= cap,
    ensures
        m[PathRange::index_of(r, w.last())] != UNREACHABLE,
        m[PathRange::index_of(r, w.last())] <= w.len() - 1,
    decreases w.len(),
{
    if w.len() == 1 {
        let t = choose|t: int| 0 <= t < sources.len() && sources[t] == w[0];
        assert(r.spec_contains(w[0]));
    } else {
        let w2 = w.drop_last();
        assert forall|i: int| 0 <= i < w2.len() implies r.spec_contains(#[trigger] w2[i]) by {
            assert(w2[i] == w[i]);
        }
        assert forall|i: int| 0 <= i < w2.len() - 1 implies ans.dom().contains(#[trigger] w2[i]) && ans[w2[i]].contains(w2[i + 1]) by {
            assert(w2[i] == w[i] && w2[i + 1] == w[i + 1]);
        }
        assert(w2[0] == w[0]);
        lemma_bfs_walks(r, m, ans, sources, cap, w2);
        let n = w.len();
        let a = w[n - 2];
        assert(w2.last() == a);
        assert(ans.dom().contains(a) && ans[a].contains(w[n - 1]));
        assert(r.spec_contains(w[n - 1]));
    }
}

/// The farthest distance a breadth-first search with limit `max_dist`
/// reaches: the limit, or 0 for a negative one.
pub open spec fn bfs_cap(max_dist: i32) -> int {
    if max_dist >= 0 {
        max_dist as int
    } else {
        0
    }
}

/// Pushing a fresh cell at a cost that keeps the order extends the search.
proof fn lemma_bfs_push(r: Range, m: Seq<i32>, q: Seq<usize>, res: Seq<PathNode>, cap: int, ni: usize, np: Point, nd: i32)
    requires
        bfs_inv(r, m, q, res, cap),
        r.spec_len() < i32::MAX,
        ni < r.spec_len(),
        ni == PathRange::index_of(r, np),
        r.spec_contains(np),
        m[ni as int] == UNREACHABLE,
        0 <= nd <= res.len(),
        nd <= cap,
        res.len() > 0 ==> res.last().cost <= nd,
    ensures
        bfs_inv(r, m.update(ni as int, nd), q.push(ni), res.push(PathNode { pos: np, cost: nd }), cap),
{
    let m2 = m.update(ni as int, nd);
    let q2 = q.push(ni);
    let res2 = res.push(PathNode { pos: np, cost: nd });
    lemma_count_update(m, ni as int, nd, UNREACHABLE);
    assert forall|k: int| 0 <= k < q.len() implies q[k] != ni by {
        assert(bfs_entry(r, m, q, res, cap, k));
    }
    assert forall|k: int| 0 <= k < q2.len() implies #[trigger] bfs_entry(r, m2, q2, res2, cap, k) by {
        if k < q.len() {
            assert(bfs_entry(r, m, q, res, cap, k));
        }
    }
    assert forall|a: int, b: int| 0 <= a < b < res2.len() implies #[trigger] res2[a].cost <= #[trigger] res2[b].cost by {
        if b == res.len() && a < res.len() - 1 {
            assert(res[a].cost <= res[res.len() - 1].cost);
        }
    }
    assert forall|i: int| 0 <= i < r.spec_len() && #[trigger] m2[i] != UNREACHABLE implies exists|k: int| 0 <= k < q2.len() && #[trigger] q2[k] == i by {
        if i != ni {
            assert(m[i] != UNREACHABLE);
            let k = choose|k: int| 0 <= k < q.len() && #[trigger] q[k] == i;
            assert(q2[k] == i);
        } else {
            assert(q2[q.len() as int] == i);
        }
    }
}

impl PathRange {
    /// The breadth-first distances of the last `bfs_map` call, one entry
    /// per cell.
    pub closed spec fn spec_bfs_map(&self) -> Seq<i32> {
        self.bfs_map@
    }

    /// The breadth-first distance of `p` from the last `bfs_map` call;
    /// `UNREACHABLE` outside the range.
    pub open spec fn spec_bfs_at(&self, p: Point) -> i32 {
        if self.spec_range().spec_contains(p) {
            self.spec_bfs_map()[PathRange::index_of(self.spec_range(), p)]
        } else {
            UNREACHABLE
        }
    }

    /// Whether the distances of the last `bfs_map` call are the fewest
    /// steps from `sources` along the neighbour lists `ans`, up to `cap`:
    /// `ans` holds, for exactly the reached points, lists that `pather` may
    /// give; each reached point ends a walk from a source with as many
    /// steps as its distance; and each walk from a source of at most `cap`
    /// steps ends at a point reached within its steps.
    pub open spec fn bfs_explained_by<P: Pather>(&self, pather: &P, ans: Map<Point, Seq<Point>>, sources: Seq<Point>, cap: int) -> bool {
        let r = self.spec_range();
        &&& forall|q: Point| #[trigger] ans.dom().contains(q) ==> is_answer(pather, q, ans[q])
        &&& forall|q: Point| #[trigger] ans.dom().contains(q) <==> r.spec_contains(q) && self.spec_bfs_at(q) != UNREACHABLE
        &&& forall|q: Point| #![trigger self.spec_bfs_at(q)] r.spec_contains(q) && self.spec_bfs_at(q) != UNREACHABLE ==> exists|w: Seq<Point>|
            #[trigger] is_walk(r, ans, w) && sources.contains(w[0]) && w.last() == q && w.len() - 1 == self.spec_bfs_at(q)
        &&& forall|w: Seq<Point>| #[trigger] is_walk(r, ans, w) && sources.contains(w[0]) && w.len() - 1 <= cap ==> self.spec_bfs_at(
            w.last(),
        ) <= w.len() - 1
    }

    /// Compute a multi-source breadth-first distance map.
    ///
    /// Each step has cost 1; expansion stops beyond `max_dist`. The result
    /// lists every reached cell once, sources first at cost 0, in
    /// non-decreasing cost; `bfs_at` then gives each cell's cost, which is
    /// the fewest steps from a source along the neighbour lists that
    /// `pather` gave (see [`bfs_explained_by`](Self::bfs_explained_by)).
    #[verifier::spinoff_prover]
    #[verifier::rlimit(80)]
    pub fn bfs_map<P: Pather>(&mut self, pather: &P, sources: &[Point], max_dist: i32) -> (res: &[PathNode])
        requires
            old(self).wf(),
        ensures
            final(self).wf(),
            final(self).spec_range() == old(self).spec_range(),
            ({
                let r = final(self).spec_range();
                let cap = if max_dist >= 0 { max_dist as int } else { 0 };
                &&& forall|k: int| 0 <= k < res@.len() ==> {
                    &&& r.spec_contains(#[trigger] res@[k].pos)
                    &&& final(self).spec_bfs_at(res@[k].pos) == res@[k].cost
                    &&& 0 <= res@[k].cost <= cap
                }
                &&& forall|a: int, b: int| 0 <= a < b < res@.len() ==> #[trigger] res@[a].cost
                    <= #[trigger] res@[b].cost
                &&& forall|a: int, b: int| 0 <= a < b < res@.len() ==> #[trigger] res@[a].pos
                    != #[trigger] res@[b].pos
                &&& forall|p: Point| r.spec_contains(p) && final(self).spec_bfs_at(p) != UNREACHABLE
                    ==> exists|k: int| 0 <= k < res@.len() && #[trigger] res@[k].pos == p
                &&& forall|j: int| 0 <= j < sources@.len() && r.spec_contains(#[trigger] sources@[j])
                    ==> final(self).spec_bfs_at(sources@[j]) == 0
            }),
            exists|ans: Map<Point, Seq<Point>>| #[trigger] final(self).bfs_explained_by(
                pather,
                ans,
                sources@,
                bfs_cap(max_dist),
            ),
    {
        proof {
            self.lemma_wf();
        }
        let len: usize = self.rng.len();
        let ghost r = self.rng;
        let ghost cap: int = if max_dist >= 0 { max_dist as int } else { 0 };
        let mut i: usize = 0;
        while i < len
            invariant
                self.inv(),
                self.rng == r,
                len == r.spec_len(),
                cap == (if max_dist >= 0 { max_dist as int } else { 0 }),
                i <= len,
                forall|j: int| 0 <= j < i ==> self.bfs_map@[j] == UNREACHABLE,
            decreases len - i,
        {
            self.bfs_map.set(i, UNREACHABLE);
            i = i + 1;
        }
        proof {
            lemma_count_all(self.bfs_map@, UNREACHABLE);
        }
        self.bfs_results.clear();
        self.bfs_queue.clear();
        let mut j: usize = 0;
        while j < sources.len()
            invariant
                self.inv(),
                self.rng == r,
                len == r.spec_len(),
                cap == (if max_dist >= 0 { max_dist as int } else { 0 }),
                j <= sources@.len(),
                bfs_inv(r, self.bfs_map@, self.bfs_queue@, self.bfs_results@, cap),
                forall|k: int| 0 <= k < self.bfs_results@.len() ==> self.bfs_results@[k].cost == 0,
                forall|k: int| 0 <= k < self.bfs_results@.len() ==> sources@.contains(#[trigger] self.bfs_results@[k].pos),
                forall|t: int| 0 <= t < j && r.spec_contains(#[trigger] sources@[t]) ==> self.bfs_map@[
                    PathRange::index_of(r, sources@[t])] == 0,
            decreases sources@.len() - j,
        {
            let src = sources[j];
            match self.idx(src) {
                Some(si) => {
                    if self.bfs_map[si] == UNREACHABLE {
                        proof {
                            if self.bfs_results@.len() > 0 {
                                assert(self.bfs_results@.last().cost == 0);
                            }
                            assert(0 <= cap);
                            lemma_bfs_push(r, self.bfs_map@, self.bfs_queue@, self.bfs_results@, cap, si, src, 0);
                        }
                        let ghost m1 = self.bfs_map@;
                        let ghost res1 = self.bfs_results@;
                        self.bfs_map.set(si, 0);
                        self.bfs_queue.push(si);
                        self.bfs_results.push(PathNode { pos: src, cost: 0 });
                        proof {
                            assert forall|k: int| 0 <= k < self.bfs_results@.len() implies sources@.contains(#[trigger] self.bfs_results@[k].pos) by {
                                if k < res1.len() {
                                    assert(self.bfs_results@[k] == res1[k]);
                                } else {
                                    assert(sources@[j as int] == src);
                                }
                            }
                            assert forall|t: int| 0 <= t < j && r.spec_contains(#[trigger] sources@[t])
                                implies self.bfs_map@[PathRange::index_of(r, sources@[t])] == 0 by {
                                lemma_index_of_bounds(r, sources@[t]);
                                assert(m1[PathRange::index_of(r, sources@[t])] == 0);
                            }
                        }
                    } else {
                        proof {
                            let k = choose|k: int| 0 <= k < self.bfs_queue@.len() && #[trigger] self.bfs_queue@[k] == si;
                            assert(bfs_entry(r, self.bfs_map@, self.bfs_queue@, self.bfs_results@, cap, k));
                        }
                    }
                },
                None => {},
            }
            proof {
                if r.spec_contains(sources@[j as int]) {
                    assert(self.bfs_map@[PathRange::index_of(r, sources@[j as int])] == 0);
                }
            }
            j = j + 1;
        }
        let ghost mut ans: Map<Point, Seq<Point>> = Map::empty();
        proof {
            assert forall|k: int| 0 <= k < self.bfs_results@.len() implies r.spec_contains(#[trigger] self.bfs_results@[k].pos)
                && self.bfs_results@[k].cost == 0 && sources@.contains(self.bfs_results@[k].pos) by {
                assert(bfs_entry(r, self.bfs_map@, self.bfs_queue@, self.bfs_results@, cap, k));
            }
            lemma_bfs_known_start(pather, r, self.bfs_results@, sources@, ans);
        }
        let mut head: usize = 0;
        while head < self.bfs_results.len()
            invariant
                self.inv(),
                self.rng == r,
                len == r.spec_len(),
                cap == (if max_dist >= 0 { max_dist as int } else { 0 }),
                bfs_inv(r, self.bfs_map@, self.bfs_queue@, self.bfs_results@, cap),
                head <= self.bfs_results@.len(),
                head < self.bfs_results@.len() ==> self.bfs_results@.last().cost
                    <= self.bfs_results@[head as int].cost + 1,
                forall|t: int| 0 <= t < sources@.len() && r.spec_contains(#[trigger] sources@[t])
                    ==> self.bfs_map@[PathRange::index_of(r, sources@[t])] == 0,
                r.spec_len() < i32::MAX,
                bfs_known(pather, r, self.bfs_results@, head as int, ans, sources@),
                bfs_closed_full(r, self.bfs_map@, ans, cap),
            decreases 2 * count_eq(self.bfs_map@, UNREACHABLE) + self.bfs_results@.len() - head,
        {
            proof {
                assert(bfs_entry(r, self.bfs_map@, self.bfs_queue@, self.bfs_results@, cap, head as int));
            }
            let ci: usize = self.bfs_queue[head];
            let current: i32 = self.bfs_map[ci];
            let cp = self.point(ci);
            let nbuf = neighbor_list(pather, cp);
            proof {
                lemma_point_at_index(r, self.bfs_results@[head as int].pos);
                assert(cp == self.bfs_results@[head as int].pos);
                assert(call_ensures(neighbor_list::<P>, (pather, cp), nbuf));
                lemma_bfs_expand(pather, r, self.bfs_map@, self.bfs_queue@, self.bfs_results@, cap, head as int, ans, sources@, nbuf@);
                ans = ans.insert(cp, nbuf@);
            }
            let ghost m0 = self.bfs_map@;
            let ghost r0 = self.bfs_results@.len();
            let mut t: usize = 0;
            while t < nbuf.len()
                invariant
                    self.inv(),
                    self.rng == r,
                    len == r.spec_len(),
                    cap == (if max_dist >= 0 { max_dist as int } else { 0 }),
                cap == (if max_dist >= 0 { max_dist as int } else { 0 }),
                    bfs_inv(r, self.bfs_map@, self.bfs_queue@, self.bfs_results@, cap),
                    head < self.bfs_results@.len(),
                    current == self.bfs_results@[head as int].cost,
                    self.bfs_results@.last().cost <= current + 1,
                    forall|s: int| 0 <= s < sources@.len() && r.spec_contains(#[trigger] sources@[s])
                        ==> self.bfs_map@[PathRange::index_of(r, sources@[s])] == 0,
                    t <= nbuf@.len(),
                    2 * count_eq(self.bfs_map@, UNREACHABLE) + self.bfs_results@.len()
                        <= 2 * count_eq(m0, UNREACHABLE) + r0,
                    r.spec_len() < i32::MAX,
                    cp == self.bfs_results@[head as int].pos,
                    r.spec_contains(cp),
                    current == self.bfs_map@[PathRange::index_of(r, cp)],
                    ans.dom().contains(cp),
                    ans[cp] == nbuf@,
                    bfs_known(pather, r, self.bfs_results@, head + 1, ans, sources@),
                    bfs_closed(r, self.bfs_map@, ans, cap, cp, t as int),
                decreases nbuf@.len() - t,
            {
                let np = nbuf[t];
                t = t + 1;
                proof {
                    assert(ans[cp][t - 1] == np);
                }
                let ni = match self.idx(np) {
                    Some(ni) => ni,
                    None => {
                        proof {
                            lemma_bfs_step_keep(r, self.bfs_map@, ans, cap, cp, (t - 1) as int);
                        }
                        continue;
                    },
                };
                if self.bfs_map[ni] != UNREACHABLE {
                    proof {
                        let k = choose|k: int| 0 <= k < self.bfs_queue@.len() && #[trigger] self.bfs_queue@[k] == ni;
                        assert(bfs_entry(r, self.bfs_map@, self.bfs_queue@, self.bfs_results@, cap, k));
                        let n = self.bfs_results@.len();
                        if k < n - 1 {
                            assert(self.bfs_results@[k].cost <= self.bfs_results@[n - 1].cost);
                        }
                        lemma_bfs_step_keep(r, self.bfs_map@, ans, cap, cp, (t - 1) as int);
                    }
                    continue;
                }
                assert(bfs_entry(r, self.bfs_map@, self.bfs_queue@, self.bfs_results@, cap, head as int));
                let nd: i32 = current + 1;
                if nd > max_dist {
                    proof {
                        lemma_bfs_step_keep(r, self.bfs_map@, ans, cap, cp, (t - 1) as int);
                    }
                    continue;
                }
                proof {
                    assert(nd <= cap);
                    lemma_bfs_dom_reached(pather, r, self.bfs_map@, self.bfs_queue@, self.bfs_results@, cap, head + 1, ans, sources@);
                    lemma_bfs_closed_push(r, self.bfs_map@, ans, cap, cp, (t - 1) as int, ni, np, nd);
                    assert(ans[cp].contains(np));
                    lemma_bfs_known_push(pather, r, self.bfs_results@, head as int, ans, sources@, np, nd);
                    lemma_bfs_push(r, self.bfs_map@, self.bfs_queue@, self.bfs_results@, cap, ni, np, nd);
                }
                let ghost m1 = self.bfs_map@;
                self.bfs_map.set(ni, nd);
                self.bfs_queue.push(ni);
                self.bfs_results.push(PathNode { pos: np, cost: nd });
                proof {
                    assert forall|s: int| 0 <= s < sources@.len() && r.spec_contains(#[trigger] sources@[s])
                        implies self.bfs_map@[PathRange::index_of(r, sources@[s])] == 0 by {
                        lemma_index_of_bounds(r, sources@[s]);
                        assert(m1[PathRange::index_of(r, sources@[s])] == 0);
                    }
                }
            }
            proof {
                if head + 1 < self.bfs_results@.len() {
                    assert(self.bfs_results@[head as int].cost <= self.bfs_results@[head + 1].cost);
                }
                lemma_bfs_closed_finish(r, self.bfs_map@, ans, cap, cp);
            }
            head = head + 1;
        }
        proof {
            self.lemma_wf();
            let res = self.bfs_results@;
            let q = self.bfs_queue@;
            assert forall|k: int| 0 <= k < res.len() implies {
                &&& r.spec_contains(#[trigger] res[k].pos)
                &&& self.spec_bfs_at(res[k].pos) == res[k].cost
                &&& 0 <= res[k].cost <= cap
            } by {
                assert(bfs_entry(r, self.bfs_map@, q, res, cap, k));
            }
            assert forall|p: Point| r.spec_contains(p) && self.spec_bfs_at(p) != UNREACHABLE
                implies exists|k: int| 0 <= k < res.len() && #[trigger] res[k].pos == p by {
                let i = PathRange::index_of(r, p);
                lemma_index_in_bounds(p.x - r.min.x, p.y - r.min.y, r.spec_width(), r.spec_height());
                assert(self.bfs_map@[i] != UNREACHABLE);
                let k = choose|k: int| 0 <= k < q.len() && #[trigger] q[k] == i;
                assert(bfs_entry(r, self.bfs_map@, q, res, cap, k));
                lemma_index_injective(r, p, res[k].pos);
            }
            assert forall|a: int, b: int| 0 <= a < b < res.len() implies #[trigger] res[a].pos
                != #[trigger] res[b].pos by {
                assert(bfs_entry(r, self.bfs_map@, q, res, cap, a));
                assert(bfs_entry(r, self.bfs_map@, q, res, cap, b));
            }
            lemma_bfs_dom_reached(pather, r, self.bfs_map@, q, res, cap, res.len() as int, ans, sources@);
            assert forall|x: Point| r.spec_contains(x) && self.bfs_map@[PathRange::index_of(r, x)] != UNREACHABLE
                implies #[trigger] ans.dom().contains(x) by {
                lemma_index_of_bounds(r, x);
                let k = choose|k: int| 0 <= k < q.len() && #[trigger] q[k] == PathRange::index_of(r, x);
                assert(bfs_entry(r, self.bfs_map@, q, res, cap, k));
                lemma_index_injective(r, x, res[k].pos);
            }
            assert forall|x: Point| #[trigger] ans.dom().contains(x) <==> r.spec_contains(x) && self.spec_bfs_at(x) != UNREACHABLE by {
            }
            assert forall|x: Point| #![trigger self.spec_bfs_at(x)] r.spec_contains(x) && self.spec_bfs_at(x) != UNREACHABLE implies exists|w: Seq<Point>|
                #[trigger] is_walk(r, ans, w) && sources@.contains(w[0]) && w.last() == x && w.len() - 1 == self.spec_bfs_at(x) by {
                assert(ans.dom().contains(x));
                let k = choose|k: int| 0 <= k < res.len() && res[k].pos == x;
                assert(bfs_entry(r, self.bfs_map@, q, res, cap, k));
                assert(res[k] == res[k]);
            }
            assert forall|w: Seq<Point>| #[trigger] is_walk(r, ans, w) && sources@.contains(w[0]) && w.len() - 1 <= cap implies self.spec_bfs_at(
                w.last(),
            ) <= w.len() - 1 by {
                lemma_bfs_walks(r, self.bfs_map@, ans, sources@, cap, w);
            }
            assert(cap == bfs_cap(max_dist));
            assert(self.bfs_explained_by(pather, ans, sources@, bfs_cap(max_dist)));
        }
        proof {
            self.lemma_wf();
        }
        self.bfs_results.as_slice()
    }

    /// The breadth-first distance at `p` from the last `bfs_map` call;
    /// `UNREACHABLE` if `p` is outside the range or was not reached.
    pub fn bfs_at(&self, p: Point) -> (d: i32)
        requires
            self.wf(),
        ensures
            d == self.spec_bfs_at(p),
    {
        proof {
            self.lemma_wf();
        }
        match self.idx(p) {
            Some(i) => self.bfs_map[i],
            None => UNREACHABLE,
        }
    }
}

} // verus!
