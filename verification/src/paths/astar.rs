//! A* shortest paths, and the tracing back of a search's parent links.
use vstd::prelude::*;

use crate::geom::{Point, Range};
use crate::paths::pathrange::{PathRange, Node, UNREACHABLE, seq_sum, lemma_index_of_bounds,
    lemma_index_injective, lemma_point_at_index};
use crate::paths::dijkstra::{hseq, node_h, lemma_hsum_update, lemma_hsum_nonneg, next_generation};
use crate::paths::queue::{MinQueue, NodeRef};
use crate::paths::traits::{AstarPather, WeightedPather, neighbor_list, is_answer, answer_step};

verus! {

/// The parent links of a search of generation `gen` started at `start`:
/// the start has no parent and cost 0, every other node of the search has a
/// parent that belongs to the search, and costs stay below `UNREACHABLE`.
pub open spec fn links_ok(nodes: Seq<Node>, gen: u32, start: int) -> bool {
    &&& 0 <= start < nodes.len()
    &&& nodes[start].generation == gen
    &&& nodes[start].parent == usize::MAX
    &&& nodes[start].g == 0
    &&& forall|i: int| #![trigger nodes[i]] 0 <= i < nodes.len() && nodes[i].generation == gen ==> {
        &&& nodes[i].g < UNREACHABLE
        &&& (nodes[i].parent == usize::MAX ==> i == start)
        &&& (nodes[i].parent != usize::MAX ==> nodes[i].parent < nodes.len()
            && nodes[nodes[i].parent as int].generation == gen)
    }
}

/// Whether following the parent links from node `i` reaches a node without
/// parent within `fuel` steps.
pub open spec fn reaches_root(nodes: Seq<Node>, i: int, fuel: nat) -> bool
    decreases fuel,
{
    if nodes[i].parent == usize::MAX {
        true
    } else if fuel == 0 {
        false
    } else {
        reaches_root(nodes, nodes[i].parent as int, (fuel - 1) as nat)
    }
}

/// Whether `path` is a path of the range from `from` to `to`: it starts at
/// `from`, ends at `to`, and every point lies in the range.
pub open spec fn path_in(r: Range, path: Seq<Point>, from: Point, to: Point) -> bool {
    &&& path.len() >= 1
    &&& path[0] == from
    &&& path.last() == to
    &&& forall|i: int| 0 <= i < path.len() ==> r.spec_contains(#[trigger] path[i])
}

/// Whether `w` is a walk of the range along the neighbour lists `ans`:
/// every point lies in the range, and each step goes from a point to one
/// of its listed neighbours.
pub open spec fn is_walk(r: Range, ans: Map<Point, Seq<Point>>, w: Seq<Point>) -> bool {
    &&& w.len() >= 1
    &&& forall|i: int| 0 <= i < w.len() ==> r.spec_contains(#[trigger] w[i])
    &&& forall|i: int| 0 <= i < w.len() - 1 ==> ans.dom().contains(#[trigger] w[i]) && ans[w[i]].contains(
        w[i + 1],
    )
}

/// The total of the step costs `cst` along `w`.
pub open spec fn walk_cost(cst: Map<(Point, Point), i32>, w: Seq<Point>) -> int
    decreases w.len(),
{
    if w.len() <= 1 {
        0
    } else {
        walk_cost(cst, w.drop_last()) + cst[(w[w.len() - 2], w.last())]
    }
}

/// Whether `w` is a walk that A* may follow: each step has a recorded
/// non-negative cost, and the total cost stays below `UNREACHABLE`.
pub open spec fn usable_walk(r: Range, ans: Map<Point, Seq<Point>>, cst: Map<(Point, Point), i32>, w: Seq<Point>) -> bool {
    &&& is_walk(r, ans, w)
    &&& forall|i: int| 0 <= i < w.len() - 1 ==> cst.dom().contains((#[trigger] w[i], w[i + 1])) && cst[(
        w[i],
        w[i + 1],
    )] >= 0
    &&& walk_cost(cst, w) < UNREACHABLE
}

/// Whether the neighbour lists `ans` and step costs `cst` are answers that
/// `pather` may give.
pub open spec fn answers_ok<P: WeightedPather>(pather: &P, ans: Map<Point, Seq<Point>>, cst: Map<(Point, Point), i32>) -> bool {
    &&& forall|p: Point| #[trigger] ans.dom().contains(p) ==> is_answer(pather, p, ans[p])
    &&& forall|e: (Point, Point)| #[trigger] cst.dom().contains(e) ==> call_ensures(
        P::cost,
        (pather, e.0, e.1),
        cst[e],
    )
}

/// Whether `dist` is the outcome of an exhausted search from `from`: every
/// point it holds lies in the range and has its neighbours listed, and each
/// listed neighbour in the range is held too, at a cost no greater than
/// through that step, unless the step's cost is negative or would reach
/// `UNREACHABLE`.
pub open spec fn search_closed(
    r: Range,
    ans: Map<Point, Seq<Point>>,
    cst: Map<(Point, Point), i32>,
    dist: Map<Point, int>,
    from: Point,
) -> bool {
    &&& dist.dom().contains(from)
    &&& dist[from] == 0
    &&& forall|p: Point| #[trigger] dist.dom().contains(p) ==> {
        &&& r.spec_contains(p)
        &&& ans.dom().contains(p)
        &&& 0 <= dist[p]
        &&& forall|q: Point| #[trigger] ans[p].contains(q) && r.spec_contains(q) ==> cst.dom().contains((p, q))
            && (cst[(p, q)] < 0 || dist[p] + cst[(p, q)] >= UNREACHABLE || (dist.dom().contains(q)
            && dist[q] <= dist[p] + cst[(p, q)]))
    }
}

/// An exhausted search holds the end of every walk that A* may follow from
/// its start, at no more than the walk's cost.
#[verifier::spinoff_prover]
#[verifier::rlimit(40)]
pub proof fn lemma_closed_search_walks(
    r: Range,
    ans: Map<Point, Seq<Point>>,
    cst: Map<(Point, Point), i32>,
    dist: Map<Point, int>,
    from: Point,
    w: Seq<Point>,
)
    requires
        search_closed(r, ans, cst, dist, from),
        usable_walk(r, ans, cst, w),
        w[0] == from,
    ensures
        dist.dom().contains(w.last()),
        dist[w.last()] <= walk_cost(cst, w),
    decreases w.len(),
{
    if w.len() > 1 {
        let w2 = w.drop_last();
        let n = w.len();
        assert(cst.dom().contains((w[n - 2], w[n - 1])) && cst[(w[n - 2], w[n - 1])] >= 0);
        assert(walk_cost(cst, w) == walk_cost(cst, w2) + cst[(w[n - 2], w[n - 1])]);
        assert forall|i: int| 0 <= i < w2.len() - 1 implies cst.dom().contains((#[trigger] w2[i], w2[i + 1]))
            && cst[(w2[i], w2[i + 1])] >= 0 by {
            assert(w2[i] == w[i] && w2[i + 1] == w[i + 1]);
        }
        assert forall|i: int| 0 <= i < w2.len() - 1 implies ans.dom().contains(#[trigger] w2[i]) && ans[w2[i]].contains(
            w2[i + 1],
        ) by {
            assert(w2[i] == w[i] && w2[i + 1] == w[i + 1]);
        }
        assert forall|i: int| 0 <= i < w2.len() implies r.spec_contains(#[trigger] w2[i]) by {
            assert(w2[i] == w[i]);
        }
        lemma_closed_search_walks(r, ans, cst, dist, from, w2);
        let a = w[n - 2];
        let b = w[n - 1];
        assert(w2.last() == a);
        assert(ans.dom().contains(a) && ans[a].contains(b));
        assert(r.spec_contains(b));
    }
}

/// Whether a step of cost `c` from node `a` to node `b` respects the
/// search: skipped (negative cost, or a total reaching the limit `lim`), or
/// `b` was reached at a cost no greater than through `a`.
pub open spec fn edge_ok(nodes: Seq<Node>, gen: u32, a: int, b: int, c: i32, lim: int) -> bool {
    c < 0 || nodes[a].g + c >= lim || (nodes[b].generation == gen && nodes[b].g <= nodes[a].g + c)
}

/// Whether node `i` was expanded with the neighbour list `ans[i]`, whose
/// first `upto` entries in the range have a recorded cost respecting the
/// search.
pub open spec fn expanded_ok(
    r: Range,
    nodes: Seq<Node>,
    gen: u32,
    ans: Map<int, Seq<Point>>,
    cst: Map<(int, int), i32>,
    i: int,
    upto: int,
    lim: int,
) -> bool {
    &&& ans.dom().contains(i)
    &&& upto <= ans[i].len()
    &&& forall|k: int| 0 <= k < upto && r.spec_contains(#[trigger] ans[i][k]) ==> cst.dom().contains(
        (i, PathRange::index_of(r, ans[i][k])),
    ) && edge_ok(nodes, gen, i, PathRange::index_of(r, ans[i][k]), cst[(i, PathRange::index_of(r, ans[i][k]))], lim)
}

/// Whether every closed node of the search, but `skip`, was expanded in
/// full.
pub open spec fn closed_ok(
    r: Range,
    nodes: Seq<Node>,
    gen: u32,
    ans: Map<int, Seq<Point>>,
    cst: Map<(int, int), i32>,
    skip: int,
    lim: int,
) -> bool {
    forall|i: int| #![trigger nodes[i]] 0 <= i < nodes.len() && nodes[i].generation == gen && !nodes[i].open
        && i != skip ==> ans.dom().contains(i) && expanded_ok(r, nodes, gen, ans, cst, i, ans[i].len() as int, lim)
}

/// Whether node `a` comes before node `b`: a lower cost, or the same cost
/// and an earlier update.
pub open spec fn rank_lt(nodes: Seq<Node>, stamps: Seq<int>, a: int, b: int) -> bool {
    nodes[a].g < nodes[b].g || (nodes[a].g == nodes[b].g && stamps[a] < stamps[b])
}

/// Whether every parent link of the search goes to an earlier node.
pub open spec fn ranks_ok(nodes: Seq<Node>, gen: u32, stamps: Seq<int>) -> bool {
    &&& stamps.len() == nodes.len()
    &&& forall|i: int| #![trigger nodes[i]] 0 <= i < nodes.len() && nodes[i].generation == gen
        && nodes[i].parent != usize::MAX ==> rank_lt(nodes, stamps, nodes[i].parent as int, i)
}

/// The nodes of the search that come before node `i`.
pub open spec fn nodes_before(nodes: Seq<Node>, gen: u32, stamps: Seq<int>, i: int) -> Set<int> {
    Set::new(|j: int| 0 <= j < nodes.len() && nodes[j].generation == gen && rank_lt(nodes, stamps, j, i))
}

/// When parent links always go to earlier nodes, following them from a
/// node of the search reaches the root within as many steps as there are
/// earlier nodes.
pub proof fn lemma_reaches_root(nodes: Seq<Node>, gen: u32, start: int, stamps: Seq<int>, i: int, fuel: nat)
    requires
        links_ok(nodes, gen, start),
        ranks_ok(nodes, gen, stamps),
        0 <= i < nodes.len(),
        nodes[i].generation == gen,
        nodes_before(nodes, gen, stamps, i).len() <= fuel,
    ensures
        reaches_root(nodes, i, fuel),
    decreases fuel,
{
    vstd::set_lib::lemma_int_range(0, nodes.len() as int);
    let bi = nodes_before(nodes, gen, stamps, i);
    vstd::set_lib::lemma_len_subset(bi, vstd::set_lib::set_int_range(0, nodes.len() as int));
    if nodes[i].parent != usize::MAX {
        let p = nodes[i].parent as int;
        let bp = nodes_before(nodes, gen, stamps, p);
        assert(bi.contains(p));
        assert(bp.subset_of(bi.remove(p)));
        vstd::set_lib::lemma_len_subset(bp, bi.remove(p));
        lemma_reaches_root(nodes, gen, start, stamps, p, (fuel - 1) as nat);
    }
}

/// Whether some node of the search lies at `b` and has its parent at `a`.
pub open spec fn parent_link(r: Range, nodes: Seq<Node>, gen: u32, a: Point, b: Point) -> bool {
    exists|j: int|
        0 <= j < nodes.len() && nodes[j].generation == gen && nodes[j].parent != usize::MAX
            && #[trigger] r.points_seq()[j] == b && r.points_seq()[nodes[j].parent as int] == a
}

/// Taking one reference out of a queue keeps a reference to every node
/// that the removed one did not refer to.
pub(crate) proof fn lemma_pop_keeps(q: Seq<NodeRef>, k: int, i: usize)
    requires
        0 <= k < q.len(),
        q[k].idx != i,
        exists|j: int| 0 <= j < q.len() && #[trigger] q[j].idx == i,
    ensures
        exists|j: int| 0 <= j < q.update(k, q.last()).drop_last().len() && #[trigger] q.update(k, q.last()).drop_last()[j].idx == i,
{
    let q2 = q.update(k, q.last()).drop_last();
    let j = choose|j: int| 0 <= j < q.len() && #[trigger] q[j].idx == i;
    if j == q.len() - 1 {
        assert(q2[k].idx == i);
    } else {
        assert(q2[j].idx == i);
    }
}

/// Lowering the cost of a node, or reaching it, keeps the closed nodes
/// other than it expanded in full, and the expansion of `skip` so far.
pub(crate) proof fn lemma_closed_update(
    r: Range,
    nodes: Seq<Node>,
    gen: u32,
    ans: Map<int, Seq<Point>>,
    cst: Map<(int, int), i32>,
    skip: int,
    upto: int,
    ni: int,
    nn: Node,
    lim: int,
)
    requires
        closed_ok(r, nodes, gen, ans, cst, skip, lim),
        0 <= skip < nodes.len() ==> expanded_ok(r, nodes, gen, ans, cst, skip, upto, lim),
        0 <= ni < nodes.len(),
        ni != skip,
        nn.generation == gen,
        nn.open,
        nodes[ni].generation == gen ==> nn.g <= nodes[ni].g,
        nodes.len() == r.spec_len(),
    ensures
        closed_ok(r, nodes.update(ni, nn), gen, ans, cst, skip, lim),
        0 <= skip < nodes.len() ==> expanded_ok(r, nodes.update(ni, nn), gen, ans, cst, skip, upto, lim),
{
    let n2 = nodes.update(ni, nn);
    assert forall|i: int| #![trigger n2[i]] 0 <= i < n2.len() && n2[i].generation == gen && !n2[i].open && i != skip
        implies ans.dom().contains(i) && expanded_ok(r, n2, gen, ans, cst, i, ans[i].len() as int, lim) by {
        assert(i != ni);
        assert(nodes[i] == n2[i]);
        assert(expanded_ok(r, nodes, gen, ans, cst, i, ans[i].len() as int, lim));
        assert forall|k: int| 0 <= k < ans[i].len() && r.spec_contains(#[trigger] ans[i][k]) implies cst.dom().contains(
            (i, PathRange::index_of(r, ans[i][k])),
        ) && edge_ok(n2, gen, i, PathRange::index_of(r, ans[i][k]), cst[(i, PathRange::index_of(r, ans[i][k]))], lim) by {
            let b = PathRange::index_of(r, ans[i][k]);
            lemma_index_of_bounds(r, ans[i][k]);
            assert(edge_ok(nodes, gen, i, b, cst[(i, b)], lim));
            if b == ni {
                assert(n2[b] == nn);
            } else {
                assert(n2[b] == nodes[b]);
            }
        }
    }
    if 0 <= skip < nodes.len() {
        assert(nodes[skip] == n2[skip]);
        assert forall|k: int| 0 <= k < upto && r.spec_contains(#[trigger] ans[skip][k]) implies cst.dom().contains(
            (skip, PathRange::index_of(r, ans[skip][k])),
        ) && edge_ok(n2, gen, skip, PathRange::index_of(r, ans[skip][k]), cst[(skip, PathRange::index_of(r, ans[skip][k]))], lim) by {
            let b = PathRange::index_of(r, ans[skip][k]);
            lemma_index_of_bounds(r, ans[skip][k]);
            assert(edge_ok(nodes, gen, skip, b, cst[(skip, b)], lim));
            if b == ni {
                assert(n2[b] == nn);
            } else {
                assert(n2[b] == nodes[b]);
            }
        }
    }
}

/// Moving a node to a new parent that comes before it, at no more cost,
/// with a fresh stamp, keeps every parent link going to an earlier node.
pub(crate) proof fn lemma_rank_update(nodes: Seq<Node>, gen: u32, start: int, stamps: Seq<int>, tick: int, ni: int, nn: Node)
    requires
        links_ok(nodes, gen, start),
        ranks_ok(nodes, gen, stamps),
        forall|i: int| 0 <= i < stamps.len() ==> #[trigger] stamps[i] < tick,
        0 <= ni < nodes.len(),
        nn.generation == gen,
        nn.parent != usize::MAX,
        0 <= nn.parent < nodes.len(),
        nn.parent != ni,
        nodes[nn.parent as int].g <= nn.g,
        nodes[ni].generation == gen ==> nn.g < nodes[ni].g,
    ensures
        ranks_ok(nodes.update(ni, nn), gen, stamps.update(ni, tick)),
{
    let n2 = nodes.update(ni, nn);
    let s2 = stamps.update(ni, tick);
    assert forall|i: int| #![trigger n2[i]] 0 <= i < n2.len() && n2[i].generation == gen && n2[i].parent != usize::MAX
        implies rank_lt(n2, s2, n2[i].parent as int, i) by {
        if i != ni {
            assert(n2[i] == nodes[i]);
            assert(rank_lt(nodes, stamps, nodes[i].parent as int, i));
        }
    }
}

/// When a search is exhausted without reaching `to`, its nodes give
/// neighbour lists, costs and distances that close it.
proof fn lemma_exhausted_search<P: WeightedPather>(
    pather: &P,
    r: Range,
    nodes: Seq<Node>,
    gen: u32,
    ans: Map<int, Seq<Point>>,
    cst: Map<(int, int), i32>,
    from: Point,
    to: Point,
)
    requires
        r.dims_fit(),
        nodes.len() == r.spec_len(),
        r.spec_contains(from),
        r.spec_contains(to),
        links_ok(nodes, gen, PathRange::index_of(r, from)),
        nodes[PathRange::index_of(r, to)].generation != gen,
        forall|i: int| 0 <= i < nodes.len() ==> #[trigger] nodes[i].g >= 0,
        forall|i: int| 0 <= i < nodes.len() && #[trigger] nodes[i].generation == gen ==> !nodes[i].open,
        closed_ok(r, nodes, gen, ans, cst, -1, UNREACHABLE as int),
        forall|i: int| #[trigger] ans.dom().contains(i) ==> 0 <= i < nodes.len() && is_answer(pather, r.points_seq()[i], ans[i]),
        forall|e: (int, int)| #[trigger] cst.dom().contains(e) ==> 0 <= e.0 < nodes.len() && 0 <= e.1 < nodes.len()
            && call_ensures(P::cost, (pather, r.points_seq()[e.0], r.points_seq()[e.1]), cst[e]),
    ensures
        exists|pans: Map<Point, Seq<Point>>, pcst: Map<(Point, Point), i32>, dist: Map<Point, int>|
            answers_ok(pather, pans, pcst) && search_closed(r, pans, pcst, dist, from) && !dist.dom().contains(to)
            && forall|w: Seq<Point>| usable_walk(r, pans, pcst, w) && w[0] == from ==> w.last() != to,
{
    let pans = Map::new(|p: Point| r.spec_contains(p) && ans.dom().contains(PathRange::index_of(r, p)), |p: Point| ans[PathRange::index_of(r, p)]);
    let pcst = Map::new(|e: (Point, Point)| r.spec_contains(e.0) && r.spec_contains(e.1) && cst.dom().contains((PathRange::index_of(r, e.0), PathRange::index_of(r, e.1))),
        |e: (Point, Point)| cst[(PathRange::index_of(r, e.0), PathRange::index_of(r, e.1))]);
    let dist = Map::new(|p: Point| r.spec_contains(p) && nodes[PathRange::index_of(r, p)].generation == gen, |p: Point| nodes[PathRange::index_of(r, p)].g as int);
    assert forall|p: Point| #[trigger] pans.dom().contains(p) implies is_answer(pather, p, pans[p]) by {
        lemma_point_at_index(r, p);
    }
    assert forall|e: (Point, Point)| #[trigger] pcst.dom().contains(e) implies call_ensures(P::cost, (pather, e.0, e.1), pcst[e]) by {
        lemma_point_at_index(r, e.0);
        lemma_point_at_index(r, e.1);
    }
    assert(answers_ok(pather, pans, pcst));
    lemma_index_of_bounds(r, from);
    lemma_index_of_bounds(r, to);
    assert(dist.dom().contains(from));
    assert forall|p: Point| #[trigger] dist.dom().contains(p) implies {
        &&& r.spec_contains(p)
        &&& pans.dom().contains(p)
        &&& 0 <= dist[p]
        &&& forall|q: Point| #[trigger] pans[p].contains(q) && r.spec_contains(q) ==> pcst.dom().contains((p, q))
            && (pcst[(p, q)] < 0 || dist[p] + pcst[(p, q)] >= UNREACHABLE || (dist.dom().contains(q)
            && dist[q] <= dist[p] + pcst[(p, q)]))
    } by {
        let i = PathRange::index_of(r, p);
        lemma_index_of_bounds(r, p);
        assert(nodes[i].generation == gen);
        assert(ans.dom().contains(i) && expanded_ok(r, nodes, gen, ans, cst, i, ans[i].len() as int, UNREACHABLE as int));
        assert forall|q: Point| #[trigger] pans[p].contains(q) && r.spec_contains(q) implies pcst.dom().contains((p, q))
            && (pcst[(p, q)] < 0 || dist[p] + pcst[(p, q)] >= UNREACHABLE || (dist.dom().contains(q)
            && dist[q] <= dist[p] + pcst[(p, q)])) by {
            let k = choose|k: int| 0 <= k < ans[i].len() && ans[i][k] == q;
            let b = PathRange::index_of(r, q);
            lemma_index_of_bounds(r, q);
            assert(r.spec_contains(ans[i][k]));
            assert(edge_ok(nodes, gen, i, b, cst[(i, b)], UNREACHABLE as int));
        }
    }
    assert(search_closed(r, pans, pcst, dist, from));
    assert(!dist.dom().contains(to));
    assert forall|w: Seq<Point>| usable_walk(r, pans, pcst, w) && w[0] == from implies w.last() != to by {
        lemma_closed_search_walks(r, pans, pcst, dist, from, w);
    }
}

/// Closing a node keeps every other closed node expanded in full.
pub(crate) proof fn lemma_closed_update_close(
    r: Range,
    nodes: Seq<Node>,
    gen: u32,
    ans: Map<int, Seq<Point>>,
    cst: Map<(int, int), i32>,
    ci: int,
    closed: Node,
    lim: int,
)
    requires
        closed_ok(r, nodes, gen, ans, cst, -1, lim),
        0 <= ci < nodes.len(),
        nodes.len() == r.spec_len(),
        closed.generation == nodes[ci].generation,
        closed.g == nodes[ci].g,
    ensures
        closed_ok(r, nodes.update(ci, closed), gen, ans, cst, ci, lim),
{
    let n2 = nodes.update(ci, closed);
    assert forall|i: int| #![trigger n2[i]] 0 <= i < n2.len() && n2[i].generation == gen && !n2[i].open && i != ci
        implies ans.dom().contains(i) && expanded_ok(r, n2, gen, ans, cst, i, ans[i].len() as int, lim) by {
        assert(nodes[i] == n2[i]);
        assert(expanded_ok(r, nodes, gen, ans, cst, i, ans[i].len() as int, lim));
        assert forall|k: int| 0 <= k < ans[i].len() && r.spec_contains(#[trigger] ans[i][k]) implies cst.dom().contains(
            (i, PathRange::index_of(r, ans[i][k])),
        ) && edge_ok(n2, gen, i, PathRange::index_of(r, ans[i][k]), cst[(i, PathRange::index_of(r, ans[i][k]))], lim) by {
            let b = PathRange::index_of(r, ans[i][k]);
            lemma_index_of_bounds(r, ans[i][k]);
            assert(edge_ok(nodes, gen, i, b, cst[(i, b)], lim));
            if b == ci {
                assert(n2[b] == closed);
            } else {
                assert(n2[b] == nodes[b]);
            }
        }
    }
}

/// Giving node `ci` a fresh neighbour list keeps the other closed nodes
/// expanded, and starts its own expansion.
pub(crate) proof fn lemma_closed_new_answer(
    r: Range,
    nodes: Seq<Node>,
    gen: u32,
    ans: Map<int, Seq<Point>>,
    cst: Map<(int, int), i32>,
    ci: int,
    s: Seq<Point>,
    lim: int,
)
    requires
        closed_ok(r, nodes, gen, ans, cst, ci, lim),
    ensures
        closed_ok(r, nodes, gen, ans.insert(ci, s), cst, ci, lim),
        expanded_ok(r, nodes, gen, ans.insert(ci, s), cst, ci, 0, lim),
{
    let a2 = ans.insert(ci, s);
    assert forall|i: int| #![trigger nodes[i]] 0 <= i < nodes.len() && nodes[i].generation == gen && !nodes[i].open && i != ci
        implies a2.dom().contains(i) && expanded_ok(r, nodes, gen, a2, cst, i, a2[i].len() as int, lim) by {
        assert(a2[i] == ans[i]);
        assert(expanded_ok(r, nodes, gen, ans, cst, i, ans[i].len() as int, lim));
    }
}

/// An entry out of the range needs no cost.
pub(crate) proof fn lemma_expanded_skip(
    r: Range,
    nodes: Seq<Node>,
    gen: u32,
    ans: Map<int, Seq<Point>>,
    cst: Map<(int, int), i32>,
    ci: int,
    t: int,
    lim: int,
)
    requires
        expanded_ok(r, nodes, gen, ans, cst, ci, t, lim),
        0 <= t < ans[ci].len(),
        !r.spec_contains(ans[ci][t]),
    ensures
        expanded_ok(r, nodes, gen, ans, cst, ci, t + 1, lim),
{
}

/// Recording the cost of entry `t` of the expansion of `ci`, once the step
/// respects the search, extends the expansion by that entry.
pub(crate) proof fn lemma_expanded_step(
    r: Range,
    nodes: Seq<Node>,
    gen: u32,
    ans: Map<int, Seq<Point>>,
    cst: Map<(int, int), i32>,
    ci: int,
    t: int,
    ni: int,
    c: i32,
    lim: int,
)
    requires
        closed_ok(r, nodes, gen, ans, cst, ci, lim),
        expanded_ok(r, nodes, gen, ans, cst, ci, t, lim),
        0 <= t < ans[ci].len(),
        r.spec_contains(ans[ci][t]),
        ni == PathRange::index_of(r, ans[ci][t]),
        edge_ok(nodes, gen, ci, ni, c, lim),
    ensures
        closed_ok(r, nodes, gen, ans, cst.insert((ci, ni), c), ci, lim),
        expanded_ok(r, nodes, gen, ans, cst.insert((ci, ni), c), ci, t + 1, lim),
{
    let c2 = cst.insert((ci, ni), c);
    assert forall|i: int| #![trigger nodes[i]] 0 <= i < nodes.len() && nodes[i].generation == gen && !nodes[i].open && i != ci
        implies ans.dom().contains(i) && expanded_ok(r, nodes, gen, ans, c2, i, ans[i].len() as int, lim) by {
        assert(expanded_ok(r, nodes, gen, ans, cst, i, ans[i].len() as int, lim));
        assert forall|k: int| 0 <= k < ans[i].len() && r.spec_contains(#[trigger] ans[i][k]) implies c2.dom().contains(
            (i, PathRange::index_of(r, ans[i][k])),
        ) && edge_ok(nodes, gen, i, PathRange::index_of(r, ans[i][k]), c2[(i, PathRange::index_of(r, ans[i][k]))], lim) by {
            let b = PathRange::index_of(r, ans[i][k]);
            assert((i, b) != (ci, ni));
            assert(c2[(i, b)] == cst[(i, b)]);
        }
    }
    assert forall|k: int| 0 <= k < t + 1 && r.spec_contains(#[trigger] ans[ci][k]) implies c2.dom().contains(
        (ci, PathRange::index_of(r, ans[ci][k])),
    ) && edge_ok(nodes, gen, ci, PathRange::index_of(r, ans[ci][k]), c2[(ci, PathRange::index_of(r, ans[ci][k]))], lim) by {
        let b = PathRange::index_of(r, ans[ci][k]);
        if b != ni {
            assert(c2[(ci, b)] == cst[(ci, b)]);
        }
    }
}

/// Once `ci` is expanded in full, every closed node is.
pub(crate) proof fn lemma_closed_finish(
    r: Range,
    nodes: Seq<Node>,
    gen: u32,
    ans: Map<int, Seq<Point>>,
    cst: Map<(int, int), i32>,
    ci: int,
    lim: int,
)
    requires
        closed_ok(r, nodes, gen, ans, cst, ci, lim),
        expanded_ok(r, nodes, gen, ans, cst, ci, ans[ci].len() as int, lim),
    ensures
        closed_ok(r, nodes, gen, ans, cst, -1, lim),
{
}

/// `v` clamped from above into `i32`.
pub open spec fn clamp_top(v: int) -> int {
    if v > i32::MAX {
        i32::MAX as int
    } else {
        v
    }
}

/// Whether node `i` holds as its priority its cost plus an estimate that
/// `pather` may give from its point to `to`, clamped into `i32`.
pub open spec fn f_ok<P: AstarPather>(pather: &P, r: Range, nodes: Seq<Node>, i: int, to: Point) -> bool {
    exists|e: i32|
        #[trigger] call_ensures(P::estimate, (pather, r.points_seq()[i], to), e) && nodes[i].f == clamp_top(
            nodes[i].g + e,
        )
}

/// Whether the step from the parent of node `i` to it has a cost that
/// `pather` may give, not negative, and the cost of `i` is at least its
/// parent's plus that step's.
pub open spec fn link_ok<P: WeightedPather>(pather: &P, r: Range, nodes: Seq<Node>, i: int) -> bool {
    exists|c: i32|
        #[trigger] call_ensures(P::cost, (pather, r.points_seq()[nodes[i].parent as int], r.points_seq()[i]), c)
            && c >= 0 && nodes[i].g >= nodes[nodes[i].parent as int].g + c
}

/// Whether every node of the search has a sound priority, and every
/// parent link a sound cost.
pub open spec fn costs_ok<P: AstarPather>(pather: &P, r: Range, nodes: Seq<Node>, gen: u32, to: Point) -> bool {
    &&& forall|i: int| #![trigger nodes[i]] 0 <= i < nodes.len() && nodes[i].generation == gen ==> f_ok(
        pather,
        r,
        nodes,
        i,
        to,
    )
    &&& forall|i: int| #![trigger nodes[i]] 0 <= i < nodes.len() && nodes[i].generation == gen && nodes[i].parent
        != usize::MAX ==> link_ok(pather, r, nodes, i)
}

/// Changing only which nodes are open keeps the priorities and links
/// sound.
pub(crate) proof fn lemma_costs_keep<P: AstarPather>(pather: &P, r: Range, n0: Seq<Node>, n1: Seq<Node>, gen: u32, to: Point)
    requires
        costs_ok(pather, r, n0, gen, to),
        n0.len() == n1.len(),
        forall|i: int| 0 <= i < n0.len() ==> #[trigger] n1[i].g == n0[i].g && n1[i].f == n0[i].f && n1[i].parent
            == n0[i].parent && n1[i].generation == n0[i].generation,
        forall|i: int| #![trigger n0[i]] 0 <= i < n0.len() && n0[i].generation == gen && n0[i].parent != usize::MAX
            ==> n0[i].parent < n0.len(),
    ensures
        costs_ok(pather, r, n1, gen, to),
{
    assert forall|i: int| #![trigger n1[i]] 0 <= i < n1.len() && n1[i].generation == gen implies f_ok(pather, r, n1, i, to) by {
        assert(n1[i].g == n0[i].g);
        assert(f_ok(pather, r, n0, i, to));
    }
    assert forall|i: int| #![trigger n1[i]] 0 <= i < n1.len() && n1[i].generation == gen && n1[i].parent != usize::MAX
        implies link_ok(pather, r, n1, i) by {
        assert(n1[i].g == n0[i].g);
        assert(n0[i].generation == gen && n0[i].parent != usize::MAX);
        assert(link_ok(pather, r, n0, i));
        let p = n0[i].parent as int;
        assert(n1[p].g == n0[p].g);
    }
}

/// Reaching node `ni` from node `ci` by a step of cost `c`, with a cost
/// lower than it had, and an estimate `e`, keeps the priorities and links
/// sound.
pub(crate) proof fn lemma_costs_update<P: AstarPather>(
    pather: &P,
    r: Range,
    n0: Seq<Node>,
    gen: u32,
    to: Point,
    ni: int,
    ci: int,
    nn: Node,
    c: i32,
    e: i32,
)
    requires
        costs_ok(pather, r, n0, gen, to),
        0 <= ni < n0.len(),
        0 <= ci < n0.len(),
        ni != ci,
        n0[ci].generation == gen,
        nn.generation == gen,
        nn.parent == ci,
        c >= 0,
        nn.g == n0[ci].g + c,
        nn.f == clamp_top(nn.g + e),
        call_ensures(P::cost, (pather, r.points_seq()[ci], r.points_seq()[ni]), c),
        call_ensures(P::estimate, (pather, r.points_seq()[ni], to), e),
        n0[ni].generation == gen ==> nn.g < n0[ni].g,
        forall|i: int| #![trigger n0[i]] 0 <= i < n0.len() && n0[i].generation == gen && n0[i].parent != usize::MAX
            ==> n0[i].parent < n0.len() && n0[n0[i].parent as int].generation == gen,
    ensures
        costs_ok(pather, r, n0.update(ni, nn), gen, to),
{
    let n1 = n0.update(ni, nn);
    assert forall|i: int| #![trigger n1[i]] 0 <= i < n1.len() && n1[i].generation == gen implies f_ok(pather, r, n1, i, to) by {
        if i == ni {
            assert(call_ensures(P::estimate, (pather, r.points_seq()[i], to), e));
        } else {
            assert(n1[i] == n0[i]);
            assert(f_ok(pather, r, n0, i, to));
        }
    }
    assert forall|i: int| #![trigger n1[i]] 0 <= i < n1.len() && n1[i].generation == gen && n1[i].parent != usize::MAX
        implies link_ok(pather, r, n1, i) by {
        if i == ni {
            assert(n1[ci] == n0[ci]);
            assert(call_ensures(P::cost, (pather, r.points_seq()[n1[i].parent as int], r.points_seq()[i]), c));
        } else {
            assert(n1[i] == n0[i]);
            assert(link_ok(pather, r, n0, i));
            let p = n0[i].parent as int;
            if p != ni {
                assert(n1[p] == n0[p]);
            }
        }
    }
}

/// Whether every estimate that `pather` may give from a point to `to` is
/// not negative and no greater than the cost of any walk that A* may follow
/// from that point to `to`, along any answers that `pather` may give.
pub open spec fn admissible<P: AstarPather>(pather: &P, r: Range, to: Point) -> bool {
    forall|a: Point, e: i32| #[trigger] call_ensures(P::estimate, (pather, a, to), e) ==> 0 <= e && forall|
        ans: Map<Point, Seq<Point>>,
        cst: Map<(Point, Point), i32>,
        w: Seq<Point>,
    |
        #![trigger answers_ok(pather, ans, cst), usable_walk(r, ans, cst, w)]
        answers_ok(pather, ans, cst) && usable_walk(r, ans, cst, w) && w[0] == a && w.last() == to ==> e
            <= walk_cost(cst, w)
}

/// Whether `pather` answers alike each time it is asked: one list of
/// neighbours for each point, one cost for each step.
pub open spec fn answers_fixed<P: WeightedPather>(pather: &P) -> bool {
    &&& forall|p: Point, s1: Seq<Point>, s2: Seq<Point>| #[trigger] is_answer(pather, p, s1) && #[trigger] is_answer(
        pather,
        p,
        s2,
    ) ==> s1 == s2
    &&& forall|a: Point, b: Point, c1: i32, c2: i32| #[trigger] call_ensures(P::cost, (pather, a, b), c1)
        && #[trigger] call_ensures(P::cost, (pather, a, b), c2) ==> c1 == c2
}

/// Whether the walk `p` from `from` to `to` costs no more than any walk
/// that A* may follow from `from` to `to`, along any answers that `pather`
/// may give, counted in those answers' step costs.
pub open spec fn least_cost<P: WeightedPather>(pather: &P, r: Range, p: Seq<Point>, from: Point, to: Point) -> bool {
    forall|ans: Map<Point, Seq<Point>>, cst: Map<(Point, Point), i32>, w: Seq<Point>|
        #![trigger answers_ok(pather, ans, cst), usable_walk(r, ans, cst, w)]
        answers_ok(pather, ans, cst) && usable_walk(r, ans, cst, w) && w[0] == from && w.last() == to && (forall|
            i: int,
        | 0 <= i < p.len() - 1 ==> cst.dom().contains((#[trigger] p[i], p[i + 1]))) ==> walk_cost(cst, p)
            <= walk_cost(cst, w)
}

/// A walk's cost is that of its part up to position `i` plus that of its
/// part from `i`; with non-negative steps, neither part costs less than
/// zero.
pub proof fn lemma_walk_split(r: Range, ans: Map<Point, Seq<Point>>, cst: Map<(Point, Point), i32>, w: Seq<Point>, i: int)
    requires
        usable_walk(r, ans, cst, w),
        0 <= i < w.len(),
    ensures
        walk_cost(cst, w) == walk_cost(cst, w.take(i + 1)) + walk_cost(cst, w.skip(i)),
        0 <= walk_cost(cst, w.take(i + 1)),
        0 <= walk_cost(cst, w.skip(i)),
        i + 1 < w.len() ==> walk_cost(cst, w.take(i + 2)) == walk_cost(cst, w.take(i + 1)) + cst[(w[i], w[i + 1])],
{
    lemma_walk_split_cost(cst, w, i);
    lemma_walk_nonneg(r, ans, cst, w, 0, i + 1);
    lemma_walk_nonneg(r, ans, cst, w, i, w.len() - i);
    assert(w.take(i + 1) =~= w.subrange(0, i + 1));
    assert(w.skip(i) =~= w.subrange(i, w.len() as int));
    if i + 1 < w.len() {
        assert(w.take(i + 2).drop_last() =~= w.take(i + 1));
    }
}

/// The part of a walk A* may follow from position `i` on is one too.
#[verifier::spinoff_prover]
#[verifier::rlimit(50)]
pub proof fn lemma_walk_suffix(r: Range, ans: Map<Point, Seq<Point>>, cst: Map<(Point, Point), i32>, w: Seq<Point>, i: int)
    requires
        usable_walk(r, ans, cst, w),
        0 <= i < w.len(),
    ensures
        usable_walk(r, ans, cst, w.skip(i)),
{
    lemma_walk_split(r, ans, cst, w, i);
    let s = w.skip(i);
    assert forall|k: int| 0 <= k < s.len() implies r.spec_contains(#[trigger] s[k]) by {
        assert(s[k] == w[k + i]);
    }
    assert forall|k: int| 0 <= k < s.len() - 1 implies ans.dom().contains(#[trigger] s[k]) && ans[s[k]].contains(s[k + 1]) by {
        assert(s[k] == w[k + i] && s[k + 1] == w[k + i + 1]);
    }
    assert forall|k: int| 0 <= k < s.len() - 1 implies cst.dom().contains((#[trigger] s[k], s[k + 1])) && cst[(s[k], s[k + 1])] >= 0 by {
        assert(s[k] == w[k + i] && s[k + 1] == w[k + i + 1]);
    }
}

/// The cost of a walk splits at any position.
proof fn lemma_walk_split_cost(cst: Map<(Point, Point), i32>, w: Seq<Point>, i: int)
    requires
        0 <= i < w.len(),
    ensures
        walk_cost(cst, w) == walk_cost(cst, w.take(i + 1)) + walk_cost(cst, w.skip(i)),
    decreases w.len(),
{
    if w.len() == i + 1 {
        assert(w.take(i + 1) =~= w);
        assert(w.skip(i).len() == 1);
    } else {
        lemma_walk_split_cost(cst, w.drop_last(), i);
        assert(w.drop_last().take(i + 1) =~= w.take(i + 1));
        assert(w.skip(i).drop_last() =~= w.drop_last().skip(i));
        let s = w.skip(i);
        assert(s[s.len() - 2] == w[w.len() - 2]);
        assert(s.last() == w.last());
    }
}

/// A contiguous part of a walk with non-negative steps costs no less than
/// zero.
proof fn lemma_walk_nonneg(r: Range, ans: Map<Point, Seq<Point>>, cst: Map<(Point, Point), i32>, w: Seq<Point>, o: int, n: int)
    requires
        usable_walk(r, ans, cst, w),
        0 <= o,
        1 <= n,
        o + n <= w.len(),
    ensures
        0 <= walk_cost(cst, w.subrange(o, o + n)),
    decreases n,
{
    let v = w.subrange(o, o + n);
    if n > 1 {
        assert(v.drop_last() =~= w.subrange(o, o + n - 1));
        lemma_walk_nonneg(r, ans, cst, w, o, n - 1);
        assert(v[n - 2] == w[o + n - 2] && v[n - 1] == w[o + n - 1]);
        assert(cst[(w[o + n - 2], w[o + n - 2 + 1])] >= 0);
    }
}

/// The index of the point at position `i` of a range is `i`.
proof fn lemma_seq_index(r: Range, i: int)
    requires
        r.dims_fit(),
        0 <= i < r.spec_len(),
    ensures
        r.spec_contains(r.points_seq()[i]),
        PathRange::index_of(r, r.points_seq()[i]) == i,
{
    crate::grid::lemma_points_len(r);
    crate::grid::lemma_points_in_range(r, i);
    crate::paths::pathrange::lemma_index_point(r, i);
}

/// Whether no walk that A* may follow from `from` to `to`, along any
/// answers that `pather` may give, costs less than `g`.
pub open spec fn goal_bound<P: WeightedPather>(pather: &P, r: Range, g: int, from: Point, to: Point) -> bool {
    forall|ans: Map<Point, Seq<Point>>, cst: Map<(Point, Point), i32>, w: Seq<Point>|
        #![trigger answers_ok(pather, ans, cst), usable_walk(r, ans, cst, w)]
        answers_ok(pather, ans, cst) && usable_walk(r, ans, cst, w) && w[0] == from && w.last() == to ==> g
            <= walk_cost(cst, w)
}

/// Whether every open node of the search has a reference in `q` that
/// carries its priority.
pub open spec fn queued_ok(nodes: Seq<Node>, gen: u32, q: Seq<NodeRef>) -> bool {
    forall|i: int| #![trigger nodes[i]] 0 <= i < nodes.len() && nodes[i].generation == gen && nodes[i].open
        ==> exists|j: int| 0 <= j < q.len() && #[trigger] q[j].idx == i && q[j].f == nodes[i].f
}

/// Whether every reference in `q` is to a node of the search, with a
/// priority no lower than that node's cost.
pub open spec fn refs_ok(nodes: Seq<Node>, gen: u32, q: Seq<NodeRef>) -> bool {
    forall|j: int| 0 <= j < q.len() ==> #[trigger] q[j].idx < nodes.len() && nodes[q[j].idx as int].generation == gen
        && q[j].f >= nodes[q[j].idx as int].g
}

/// Taking the reference at `k` out of a queue keeps every other node's
/// reference with its priority, and leaves references to the search with
/// priorities no lower than their nodes' costs.
pub(crate) proof fn lemma_pop_refs(nodes: Seq<Node>, gen: u32, q: Seq<NodeRef>, k: int, ci: int, with_refs: bool)
    requires
        0 <= k < q.len(),
        q[k].idx == ci,
        queued_ok(nodes, gen, q),
        with_refs ==> refs_ok(nodes, gen, q),
    ensures
        with_refs ==> refs_ok(nodes, gen, q.update(k, q.last()).drop_last()),
        forall|i: int| #![trigger nodes[i]] 0 <= i < nodes.len() && nodes[i].generation == gen && nodes[i].open && i != ci
            ==> exists|j: int| 0 <= j < q.update(k, q.last()).drop_last().len() && #[trigger] q.update(k, q.last()).drop_last()[j].idx
            == i && q.update(k, q.last()).drop_last()[j].f == nodes[i].f,
{
    let q2 = q.update(k, q.last()).drop_last();
    assert forall|j: int| with_refs && 0 <= j < q2.len() implies #[trigger] q2[j].idx < nodes.len() && nodes[q2[j].idx as int].generation == gen
        && q2[j].f >= nodes[q2[j].idx as int].g by {
        if j == k {
            assert(q2[j] == q[q.len() - 1]);
        } else {
            assert(q2[j] == q[j]);
        }
    }
    assert forall|i: int| #![trigger nodes[i]] 0 <= i < nodes.len() && nodes[i].generation == gen && nodes[i].open && i != ci
        implies exists|j: int| 0 <= j < q2.len() && #[trigger] q2[j].idx == i && q2[j].f == nodes[i].f by {
        let j = choose|j: int| 0 <= j < q.len() && #[trigger] q[j].idx == i && q[j].f == nodes[i].f;
        if j == q.len() - 1 {
            assert(q2[k] == q[j]);
        } else {
            assert(q2[j] == q[j]);
        }
    }
}

/// Reaching node `ni` anew and queueing it with its priority keeps every
/// open node referenced with its priority, and the references sound.
pub(crate) proof fn lemma_push_refs(nodes: Seq<Node>, gen: u32, q: Seq<NodeRef>, ni: usize, nn: Node, with_refs: bool)
    requires
        ni < nodes.len(),
        queued_ok(nodes, gen, q),
        with_refs ==> refs_ok(nodes, gen, q),
        nn.generation == gen,
        nn.open,
        nodes[ni as int].generation == gen ==> nn.g <= nodes[ni as int].g,
        with_refs ==> nn.f >= nn.g,
    ensures
        queued_ok(nodes.update(ni as int, nn), gen, q.push(NodeRef { idx: ni, f: nn.f })),
        with_refs ==> refs_ok(nodes.update(ni as int, nn), gen, q.push(NodeRef { idx: ni, f: nn.f })),
{
    let n1 = nodes.update(ni as int, nn);
    let q1 = q.push(NodeRef { idx: ni, f: nn.f });
    assert forall|i: int| #![trigger n1[i]] 0 <= i < n1.len() && n1[i].generation == gen && n1[i].open
        implies exists|j: int| 0 <= j < q1.len() && #[trigger] q1[j].idx == i && q1[j].f == n1[i].f by {
        if i == ni as int {
            assert(q1[q.len() as int].idx == i);
        } else {
            assert(n1[i] == nodes[i]);
            let j = choose|j: int| 0 <= j < q.len() && #[trigger] q[j].idx == i && q[j].f == nodes[i].f;
            assert(q1[j] == q[j]);
        }
    }
    assert forall|j: int| with_refs && 0 <= j < q1.len() implies #[trigger] q1[j].idx < n1.len() && n1[q1[j].idx as int].generation == gen
        && q1[j].f >= n1[q1[j].idx as int].g by {
        if j < q.len() {
            assert(q1[j] == q[j]);
            assert(q[j].idx < nodes.len());
        }
    }
}

/// Closing node `ci` keeps every other open node referenced with its
/// priority, and the references sound.
pub(crate) proof fn lemma_close_refs(nodes: Seq<Node>, gen: u32, q: Seq<NodeRef>, ci: int, cn: Node, with_refs: bool)
    requires
        0 <= ci < nodes.len(),
        forall|i: int| #![trigger nodes[i]] 0 <= i < nodes.len() && nodes[i].generation == gen && nodes[i].open && i != ci
            ==> exists|j: int| 0 <= j < q.len() && #[trigger] q[j].idx == i && q[j].f == nodes[i].f,
        with_refs ==> refs_ok(nodes, gen, q),
        cn.generation == nodes[ci].generation,
        cn.g == nodes[ci].g,
        !cn.open,
    ensures
        queued_ok(nodes.update(ci, cn), gen, q),
        with_refs ==> refs_ok(nodes.update(ci, cn), gen, q),
{
    let n1 = nodes.update(ci, cn);
    assert forall|i: int| #![trigger n1[i]] 0 <= i < n1.len() && n1[i].generation == gen && n1[i].open
        implies exists|j: int| 0 <= j < q.len() && #[trigger] q[j].idx == i && q[j].f == n1[i].f by {
        assert(n1[i] == nodes[i]);
    }
    assert forall|j: int| with_refs && 0 <= j < q.len() implies #[trigger] q[j].idx < n1.len() && n1[q[j].idx as int].generation == gen
        && q[j].f >= n1[q[j].idx as int].g by {
        assert(q[j].idx < nodes.len());
    }
}

/// Along a walk A* may follow, under fixed answers: when the node at
/// position `i - 1` was closed at no more than the walk's cost so far, the
/// node at `i` belongs to the search at no more than the walk's cost up to
/// it.
#[verifier::spinoff_prover]
#[verifier::rlimit(50)]
proof fn lemma_frontier_edge<P: AstarPather>(
    pather: &P,
    r: Range,
    nodes: Seq<Node>,
    gen: u32,
    sans: Map<int, Seq<Point>>,
    scst: Map<(int, int), i32>,
    ans: Map<Point, Seq<Point>>,
    cst: Map<(Point, Point), i32>,
    w: Seq<Point>,
    i: int,
)
    requires
        r.dims_fit(),
        nodes.len() == r.spec_len(),
        closed_ok(r, nodes, gen, sans, scst, -1, UNREACHABLE as int),
        forall|a: int| #[trigger] sans.dom().contains(a) ==> 0 <= a < nodes.len() && is_answer(pather, r.points_seq()[a], sans[a]),
        forall|e: (int, int)| #[trigger] scst.dom().contains(e) ==> 0 <= e.0 < nodes.len() && 0 <= e.1 < nodes.len()
            && call_ensures(P::cost, (pather, r.points_seq()[e.0], r.points_seq()[e.1]), scst[e]),
        answers_fixed(pather),
        answers_ok(pather, ans, cst),
        usable_walk(r, ans, cst, w),
        0 < i < w.len(),
        ({
            let a = PathRange::index_of(r, w[i - 1]);
            nodes[a].generation == gen && !nodes[a].open && nodes[a].g <= walk_cost(cst, w.take(i))
        }),
    ensures
        nodes[PathRange::index_of(r, w[i])].generation == gen,
        nodes[PathRange::index_of(r, w[i])].g <= walk_cost(cst, w.take(i + 1)),
{
    let lim = UNREACHABLE as int;
    assert(r.spec_contains(w[i]));
    lemma_point_at_index(r, w[i]);
    let b = PathRange::index_of(r, w[i]);
    lemma_walk_split(r, ans, cst, w, i);
    let pa = w[i - 1];
    assert(r.spec_contains(pa));
    lemma_point_at_index(r, pa);
    let a = PathRange::index_of(r, pa);
    lemma_walk_split(r, ans, cst, w, i - 1);
    assert(w.take(i) == w.take((i - 1) + 1));
    assert(nodes[a].generation == gen);
    assert(sans.dom().contains(a) && expanded_ok(r, nodes, gen, sans, scst, a, sans[a].len() as int, lim));
    assert(is_answer(pather, r.points_seq()[a], sans[a]));
    assert(ans.dom().contains(w[i - 1]) && ans[w[i - 1]].contains(w[(i - 1) + 1]));
    assert(is_answer(pather, pa, ans[pa]));
    assert(sans[a] == ans[pa]);
    let kk = choose|kk: int| 0 <= kk < ans[pa].len() && ans[pa][kk] == w[i];
    assert(r.spec_contains(sans[a][kk]));
    assert(scst.dom().contains((a, b)) && edge_ok(nodes, gen, a, b, scst[(a, b)], lim));
    assert(call_ensures(P::cost, (pather, r.points_seq()[a], r.points_seq()[b]), scst[(a, b)]));
    assert(cst.dom().contains((w[i - 1], w[(i - 1) + 1])) && cst[(w[i - 1], w[(i - 1) + 1])] >= 0);
    assert(call_ensures(P::cost, (pather, pa, w[i]), cst[(pa, w[i])]));
    assert(scst[(a, b)] == cst[(pa, w[i])]);
}

/// Along a walk A* may follow to `to`, under admissible estimates: an open
/// node at position `i`, reached at no more than the walk's cost up to it,
/// has a reference in the queue with a priority no greater than the
/// walk's cost.
#[verifier::spinoff_prover]
#[verifier::rlimit(50)]
proof fn lemma_frontier_open<P: AstarPather>(
    pather: &P,
    r: Range,
    nodes: Seq<Node>,
    gen: u32,
    q: Seq<NodeRef>,
    to: Point,
    ans: Map<Point, Seq<Point>>,
    cst: Map<(Point, Point), i32>,
    w: Seq<Point>,
    i: int,
)
    requires
        r.dims_fit(),
        nodes.len() == r.spec_len(),
        forall|b: int| 0 <= b < nodes.len() && nodes[b].generation == gen ==> #[trigger] f_ok(pather, r, nodes, b, to),
        queued_ok(nodes, gen, q),
        admissible(pather, r, to),
        answers_ok(pather, ans, cst),
        usable_walk(r, ans, cst, w),
        w.last() == to,
        0 <= i < w.len(),
        nodes[PathRange::index_of(r, w[i])].generation == gen,
        nodes[PathRange::index_of(r, w[i])].open,
        nodes[PathRange::index_of(r, w[i])].g <= walk_cost(cst, w.take(i + 1)),
    ensures
        exists|j: int| 0 <= j < q.len() && q[j].f <= walk_cost(cst, w),
{
    assert(r.spec_contains(w[i]));
    lemma_point_at_index(r, w[i]);
    let b = PathRange::index_of(r, w[i]);
    lemma_walk_split(r, ans, cst, w, i);
    assert(nodes[b].generation == gen && nodes[b].open);
    let j = choose|j: int| 0 <= j < q.len() && #[trigger] q[j].idx == b && q[j].f == nodes[b].f;
    assert(f_ok(pather, r, nodes, b, to));
    let e = choose|e: i32|
        #[trigger] call_ensures(P::estimate, (pather, r.points_seq()[b], to), e) && nodes[b].f == clamp_top(
            nodes[b].g + e,
        );
    lemma_walk_suffix(r, ans, cst, w, i);
    let s = w.skip(i);
    assert(s[0] == w[i]);
    assert(s.last() == to);
    assert(answers_ok(pather, ans, cst) && usable_walk(r, ans, cst, s));
    assert(e <= walk_cost(cst, s));
    assert(q[j].f <= walk_cost(cst, w));
}

/// Along a walk A* may follow from `from` to `to`, under admissible
/// estimates and fixed answers: when the node before position `i` was
/// closed at no more than the walk's cost so far, and the goal is still
/// open, some reference of the queue has a priority no greater than the
/// walk's cost.
#[verifier::spinoff_prover]
#[verifier::rlimit(50)]
pub(crate) proof fn lemma_frontier<P: AstarPather>(
    pather: &P,
    r: Range,
    nodes: Seq<Node>,
    gen: u32,
    sans: Map<int, Seq<Point>>,
    scst: Map<(int, int), i32>,
    q: Seq<NodeRef>,
    from: Point,
    to: Point,
    ans: Map<Point, Seq<Point>>,
    cst: Map<(Point, Point), i32>,
    w: Seq<Point>,
    i: int,
)
    requires
        r.dims_fit(),
        nodes.len() == r.spec_len(),
        r.spec_contains(from),
        r.spec_contains(to),
        nodes[PathRange::index_of(r, from)].generation == gen,
        nodes[PathRange::index_of(r, from)].g == 0,
        closed_ok(r, nodes, gen, sans, scst, -1, UNREACHABLE as int),
        forall|a: int| #[trigger] sans.dom().contains(a) ==> 0 <= a < nodes.len() && is_answer(pather, r.points_seq()[a], sans[a]),
        forall|e: (int, int)| #[trigger] scst.dom().contains(e) ==> 0 <= e.0 < nodes.len() && 0 <= e.1 < nodes.len()
            && call_ensures(P::cost, (pather, r.points_seq()[e.0], r.points_seq()[e.1]), scst[e]),
        forall|b: int| 0 <= b < nodes.len() && nodes[b].generation == gen ==> #[trigger] f_ok(pather, r, nodes, b, to),
        queued_ok(nodes, gen, q),
        nodes[PathRange::index_of(r, to)].generation == gen,
        nodes[PathRange::index_of(r, to)].open,
        admissible(pather, r, to),
        answers_fixed(pather),
        answers_ok(pather, ans, cst),
        usable_walk(r, ans, cst, w),
        w[0] == from,
        w.last() == to,
        0 <= i < w.len(),
        i > 0 ==> ({
            let a = PathRange::index_of(r, w[i - 1]);
            nodes[a].generation == gen && !nodes[a].open && nodes[a].g <= walk_cost(cst, w.take(i))
        }),
    ensures
        exists|j: int| 0 <= j < q.len() && q[j].f <= walk_cost(cst, w),
    decreases w.len() - i,
{
    let b = PathRange::index_of(r, w[i]);
    if i == 0 {
        lemma_walk_split(r, ans, cst, w, 0);
        assert(w.take(1).len() == 1);
    } else {
        lemma_frontier_edge(pather, r, nodes, gen, sans, scst, ans, cst, w, i);
    }
    if nodes[b].open {
        lemma_frontier_open(pather, r, nodes, gen, q, to, ans, cst, w, i);
    } else {
        if i == w.len() - 1 {
            assert(w[i] == to);
            assert(false);
        }
        lemma_frontier(pather, r, nodes, gen, sans, scst, q, from, to, ans, cst, w, i + 1);
    }
}

/// Under fixed answers, a walk whose steps follow the parent links of the
/// search from its start costs no more than the node where it ends.
#[verifier::spinoff_prover]
#[verifier::rlimit(40)]
pub(crate) proof fn lemma_path_cost<P: AstarPather>(
    pather: &P,
    r: Range,
    nodes: Seq<Node>,
    gen: u32,
    start: int,
    to: Point,
    p: Seq<Point>,
    cst: Map<(Point, Point), i32>,
    k: int,
)
    requires
        r.dims_fit(),
        nodes.len() == r.spec_len(),
        0 <= start < nodes.len(),
        nodes[start].g == 0,
        forall|j: int| 0 <= j < nodes.len() && nodes[j].generation == gen && nodes[j].parent != usize::MAX
            ==> #[trigger] link_ok(pather, r, nodes, j) && nodes[j].parent < nodes.len(),
        answers_fixed(pather),
        0 <= k < p.len(),
        p[0] == r.points_seq()[start],
        forall|i: int| 0 <= i < p.len() ==> r.spec_contains(#[trigger] p[i]),
        forall|i: int| 0 <= i < p.len() - 1 ==> parent_link(r, nodes, gen, #[trigger] p[i], p[i + 1]),
        forall|i: int| 0 <= i < p.len() - 1 ==> cst.dom().contains((#[trigger] p[i], p[i + 1])) && call_ensures(
            P::cost,
            (pather, p[i], p[i + 1]),
            cst[(p[i], p[i + 1])],
        ),
    ensures
        walk_cost(cst, p.take(k + 1)) <= nodes[PathRange::index_of(r, p[k])].g,
    decreases k,
{
    if k == 0 {
        assert(p.take(1).len() == 1);
        lemma_seq_index(r, start);
    } else {
        lemma_path_cost(pather, r, nodes, gen, start, to, p, cst, k - 1);
        assert(p.take(k + 1).drop_last() =~= p.take(k));
        assert(p.take(k + 1)[k - 1] == p[k - 1] && p.take(k + 1).last() == p[k]);
        assert(parent_link(r, nodes, gen, p[k - 1], p[(k - 1) + 1]));
        let j = choose|j: int|
            0 <= j < nodes.len() && nodes[j].generation == gen && nodes[j].parent != usize::MAX
                && #[trigger] r.points_seq()[j] == p[k] && r.points_seq()[nodes[j].parent as int] == p[k - 1];
        assert(link_ok(pather, r, nodes, j) && nodes[j].parent < nodes.len());
        let pj = nodes[j].parent as int;
        lemma_seq_index(r, j);
        lemma_seq_index(r, pj);
        let c = choose|c: i32|
            #[trigger] call_ensures(P::cost, (pather, r.points_seq()[nodes[j].parent as int], r.points_seq()[j]), c)
                && c >= 0 && nodes[j].g >= nodes[nodes[j].parent as int].g + c;
        assert(cst.dom().contains((p[k - 1], p[(k - 1) + 1])));
        assert(call_ensures(P::cost, (pather, p[k - 1], p[k]), cst[(p[k - 1], p[k])]));
        assert(c == cst[(p[k - 1], p[k])]);
    }
}

/// A walk of one point costs nothing, no more than any other.
#[verifier::spinoff_prover]
#[verifier::rlimit(40)]
proof fn lemma_single_least<P: WeightedPather>(pather: &P, r: Range, from: Point, to: Point)
    ensures
        least_cost(pather, r, seq![from], from, to),
{
    assert forall|ans: Map<Point, Seq<Point>>, cst: Map<(Point, Point), i32>, w: Seq<Point>|
        #![trigger answers_ok(pather, ans, cst), usable_walk(r, ans, cst, w)]
        answers_ok(pather, ans, cst) && usable_walk(r, ans, cst, w) && w[0] == from && w.last() == to
        implies walk_cost(cst, seq![from]) <= walk_cost(cst, w) by {
        lemma_walk_split(r, ans, cst, w, 0);
        assert(w.skip(0) =~= w);
    }
}

/// When the goal is taken from the queue with the lowest priority, under
/// admissible estimates and fixed answers, no walk that A* may follow to
/// it costs less than the goal's cost.
#[verifier::spinoff_prover]
#[verifier::rlimit(60)]
proof fn lemma_goal_bound<P: AstarPather>(
    pather: &P,
    r: Range,
    nodes: Seq<Node>,
    gen: u32,
    sans: Map<int, Seq<Point>>,
    scst: Map<(int, int), i32>,
    q: Seq<NodeRef>,
    kk: int,
    from: Point,
    to: Point,
)
    requires
        r.dims_fit(),
        nodes.len() == r.spec_len(),
        r.spec_contains(from),
        r.spec_contains(to),
        links_ok(nodes, gen, PathRange::index_of(r, from)),
        closed_ok(r, nodes, gen, sans, scst, -1, UNREACHABLE as int),
        forall|a: int| #[trigger] sans.dom().contains(a) ==> 0 <= a < nodes.len() && is_answer(pather, r.points_seq()[a], sans[a]),
        forall|e: (int, int)| #[trigger] scst.dom().contains(e) ==> 0 <= e.0 < nodes.len() && 0 <= e.1 < nodes.len()
            && call_ensures(P::cost, (pather, r.points_seq()[e.0], r.points_seq()[e.1]), scst[e]),
        costs_ok(pather, r, nodes, gen, to),
        queued_ok(nodes, gen, q),
        refs_ok(nodes, gen, q),
        0 <= kk < q.len(),
        q[kk].idx == PathRange::index_of(r, to),
        forall|j: int| 0 <= j < q.len() ==> q[kk].f <= #[trigger] q[j].f,
        nodes[PathRange::index_of(r, to)].generation == gen,
        nodes[PathRange::index_of(r, to)].open,
        admissible(pather, r, to),
        answers_fixed(pather),
    ensures
        goal_bound(pather, r, nodes[PathRange::index_of(r, to)].g as int, from, to),
{
    assert forall|b: int| 0 <= b < nodes.len() && nodes[b].generation == gen implies #[trigger] f_ok(pather, r, nodes, b, to) by {
        assert(nodes[b].generation == gen);
    }
    assert(nodes[PathRange::index_of(r, from)].generation == gen && nodes[PathRange::index_of(r, from)].g == 0);
    assert forall|ans: Map<Point, Seq<Point>>, cst: Map<(Point, Point), i32>, w: Seq<Point>|
        #![trigger answers_ok(pather, ans, cst), usable_walk(r, ans, cst, w)]
        answers_ok(pather, ans, cst) && usable_walk(r, ans, cst, w) && w[0] == from && w.last() == to
        implies nodes[PathRange::index_of(r, to)].g <= walk_cost(cst, w) by {
        lemma_frontier(pather, r, nodes, gen, sans, scst, q, from, to, ans, cst, w, 0);
        let j = choose|j: int| 0 <= j < q.len() && q[j].f <= walk_cost(cst, w);
        assert(q[kk].f <= q[j].f);
        assert(q[kk].f >= nodes[q[kk].idx as int].g);
    }
}

/// A path along the parent links from the start to the goal, whose cost no
/// walk to the goal undercuts, costs the least, under fixed answers.
proof fn lemma_path_least<P: AstarPather>(
    pather: &P,
    r: Range,
    nodes: Seq<Node>,
    gen: u32,
    start: int,
    goal: int,
    from: Point,
    to: Point,
    p: Seq<Point>,
)
    requires
        r.dims_fit(),
        nodes.len() == r.spec_len(),
        links_ok(nodes, gen, start),
        costs_ok(pather, r, nodes, gen, to),
        answers_fixed(pather),
        0 <= goal < nodes.len(),
        goal_bound(pather, r, nodes[goal].g as int, from, to),
        path_in(r, p, r.points_seq()[start], r.points_seq()[goal]),
        forall|i: int| 0 <= i < p.len() - 1 ==> parent_link(r, nodes, gen, #[trigger] p[i], p[i + 1]),
    ensures
        least_cost(pather, r, p, from, to),
{
    assert forall|ans: Map<Point, Seq<Point>>, cst: Map<(Point, Point), i32>, w: Seq<Point>|
        #![trigger answers_ok(pather, ans, cst), usable_walk(r, ans, cst, w)]
        answers_ok(pather, ans, cst) && usable_walk(r, ans, cst, w) && w[0] == from && w.last() == to && (forall|
            i: int,
        | 0 <= i < p.len() - 1 ==> cst.dom().contains((#[trigger] p[i], p[i + 1]))) implies walk_cost(cst, p)
        <= walk_cost(cst, w) by {
        assert(nodes[goal].g <= walk_cost(cst, w));
        lemma_path_least_one(pather, r, nodes, gen, start, goal, to, p, ans, cst);
    }
}

/// A path along the parent links from the start to the goal costs, in any
/// step costs that `pather` may give for it, no more than the goal's cost,
/// under fixed answers.
#[verifier::spinoff_prover]
#[verifier::rlimit(60)]
proof fn lemma_path_least_one<P: AstarPather>(
    pather: &P,
    r: Range,
    nodes: Seq<Node>,
    gen: u32,
    start: int,
    goal: int,
    to: Point,
    p: Seq<Point>,
    ans: Map<Point, Seq<Point>>,
    cst: Map<(Point, Point), i32>,
)
    requires
        r.dims_fit(),
        nodes.len() == r.spec_len(),
        links_ok(nodes, gen, start),
        costs_ok(pather, r, nodes, gen, to),
        answers_fixed(pather),
        0 <= goal < nodes.len(),
        path_in(r, p, r.points_seq()[start], r.points_seq()[goal]),
        forall|i: int| 0 <= i < p.len() - 1 ==> parent_link(r, nodes, gen, #[trigger] p[i], p[i + 1]),
        answers_ok(pather, ans, cst),
        forall|i: int| 0 <= i < p.len() - 1 ==> cst.dom().contains((#[trigger] p[i], p[i + 1])),
    ensures
        walk_cost(cst, p) <= nodes[goal].g,
{
    assert forall|i: int| 0 <= i < p.len() - 1 implies cst.dom().contains((#[trigger] p[i], p[i + 1]))
        && call_ensures(P::cost, (pather, p[i], p[i + 1]), cst[(p[i], p[i + 1])]) by {
        assert(cst.dom().contains((p[i], p[i + 1])));
    }
    assert forall|j: int| 0 <= j < nodes.len() && nodes[j].generation == gen && nodes[j].parent != usize::MAX
        implies #[trigger] link_ok(pather, r, nodes, j) && nodes[j].parent < nodes.len() by {
        assert(nodes[j].generation == gen);
    }
    lemma_path_cost(pather, r, nodes, gen, start, to, p, cst, p.len() - 1);
    assert(p.take(p.len() - 1 + 1) =~= p);
    lemma_seq_index(r, goal);
    assert(p[p.len() - 1] == r.points_seq()[goal]);
}

/// Clamp a cost estimate into `i32`, from above.
fn clamp_cost(v: i64) -> (c: i32)
    requires
        v >= i32::MIN,
    ensures
        c == (if v > i32::MAX { i32::MAX as int } else { v as int }),
{
    if v > i32::MAX as i64 {
        i32::MAX
    } else {
        v as i32
    }
}

impl PathRange {
    /// Follow the parent links of the A* nodes from `goal` back to `start`,
    /// giving the points from `start` to `goal`. `None` only if the links
    /// run longer than the range has cells, which the searches never let
    /// happen.
    pub(crate) fn trace_path(&self, start: usize, goal: usize) -> (path: Option<Vec<Point>>)
        requires
            self.inv(),
            links_ok(self.astar_nodes@, self.astar_generation, start as int),
            goal < self.rng.spec_len(),
            self.astar_nodes@[goal as int].generation == self.astar_generation,
        ensures
            path matches Some(p) ==> path_in(
                self.rng,
                p@,
                self.rng.points_seq()[start as int],
                self.rng.points_seq()[goal as int],
            ),
            path is Some <==> reaches_root(self.astar_nodes@, goal as int, self.rng.spec_len()),
            path matches Some(p) ==> forall|i: int| 0 <= i < p@.len() - 1 ==> parent_link(
                self.rng,
                self.astar_nodes@,
                self.astar_generation,
                #[trigger] p@[i],
                p@[i + 1],
            ),
    {
        let len: usize = self.rng.len();
        let ghost gen = self.astar_generation;
        let mut rev: Vec<Point> = Vec::new();
        let mut ci: usize = goal;
        rev.push(self.point(ci));
        let mut steps: usize = 0;
        while self.astar_nodes[ci].parent != usize::MAX
            invariant
                self.inv(),
                len == self.rng.spec_len(),
                links_ok(self.astar_nodes@, gen, start as int),
                gen == self.astar_generation,
                ci < len,
                self.astar_nodes@[ci as int].generation == gen,
                rev@.len() >= 1,
                rev@[0] == self.rng.points_seq()[goal as int],
                rev@.last() == self.rng.points_seq()[ci as int],
                forall|i: int| 0 <= i < rev@.len() ==> self.rng.spec_contains(#[trigger] rev@[i]),
                forall|k: int| 0 <= k < rev@.len() - 1 ==> parent_link(self.rng, self.astar_nodes@, gen, #[trigger] rev@[k + 1], rev@[k]),
                steps <= len,
                reaches_root(self.astar_nodes@, goal as int, len as nat)
                    == reaches_root(self.astar_nodes@, ci as int, (len - steps) as nat),
            decreases len - steps,
        {
            if steps >= len {
                return None;
            }
            let ghost old_ci = ci;
            let ghost old_rev = rev@;
            ci = self.astar_nodes[ci].parent;
            rev.push(self.point(ci));
            steps = steps + 1;
            proof {
                assert forall|k: int| 0 <= k < rev@.len() - 1 implies parent_link(self.rng, self.astar_nodes@, gen, #[trigger] rev@[k + 1], rev@[k]) by {
                    if k == rev@.len() - 2 {
                        assert(self.rng.points_seq()[old_ci as int] == rev@[k]);
                    } else {
                        assert(rev@[k + 1] == old_rev[k + 1] && rev@[k] == old_rev[k]);
                    }
                }
            }
        }
        assert(ci == start);
        let mut path: Vec<Point> = Vec::new();
        let mut k: usize = rev.len();
        while k > 0
            invariant
                k <= rev@.len(),
                rev@.len() >= 1,
                path@.len() == rev@.len() - k,
                forall|i: int| 0 <= i < path@.len() ==> #[trigger] path@[i] == rev@[rev@.len() - 1 - i],
            decreases k,
        {
            k = k - 1;
            path.push(rev[k]);
        }
        assert forall|i: int| 0 <= i < path@.len() implies self.rng.spec_contains(#[trigger] path@[i]) by {
            assert(path@[i] == rev@[rev@.len() - 1 - i]);
        }
        assert forall|i: int| 0 <= i < path@.len() - 1 implies parent_link(self.rng, self.astar_nodes@, gen, #[trigger] path@[i], path@[i + 1]) by {
            let k = rev@.len() - 2 - i;
            assert(path@[i] == rev@[k + 1] && path@[i + 1] == rev@[k]);
        }
        Some(path)
    }

    /// Compute a shortest path from `from` to `to` using A*.
    ///
    /// Returns the full path (including both endpoints) or `None` if no path
    /// exists within the current range. Edges of negative cost, and paths
    /// whose cost would reach `UNREACHABLE`, are not followed.
    ///
    /// Each step of a returned path goes to a neighbour that `pather` lists.
    /// When both ends lie in the range and `None` comes back, the search was
    /// exhausted: the neighbour lists and costs that `pather` gave close a
    /// set of points that holds `from` and not `to`, so that no walk that
    /// A* may follow joins them.
    #[verifier::spinoff_prover]
    #[verifier::rlimit(100)]
    pub fn astar_path<P: AstarPather>(&mut self, pather: &P, from: Point, to: Point) -> (res: Option<Vec<Point>>)
        requires
            old(self).wf(),
        ensures
            final(self).wf(),
            final(self).spec_range() == old(self).spec_range(),
            !old(self).spec_range().spec_contains(from) ==> res is None,
            !old(self).spec_range().spec_contains(to) ==> res is None,
            old(self).spec_range().spec_contains(from) && from == to ==> (res matches Some(p) && p@ == seq![from]),
            res matches Some(p) ==> path_in(old(self).spec_range(), p@, from, to),
            res matches Some(p) ==> forall|i: int| 0 <= i < p@.len() - 1 ==> answer_step(pather, #[trigger] p@[i], p@[i + 1]),
            old(self).spec_range().spec_contains(from) && old(self).spec_range().spec_contains(to) && res is None
                ==> exists|ans: Map<Point, Seq<Point>>, cst: Map<(Point, Point), i32>, dist: Map<Point, int>|
                answers_ok(pather, ans, cst) && search_closed(old(self).spec_range(), ans, cst, dist, from)
                && !dist.dom().contains(to) && forall|w: Seq<Point>| usable_walk(old(self).spec_range(), ans, cst, w)
                && w[0] == from ==> w.last() != to,
            res matches Some(p) ==> (admissible(pather, old(self).spec_range(), to) && answers_fixed(pather) ==> least_cost(
                pather,
                old(self).spec_range(),
                p@,
                from,
                to,
            )),
    {
        proof {
            self.lemma_wf();
        }
        let ghost r = self.rng;
        let start_idx: usize = match self.idx(from) {
            Some(i) => i,
            None => {
                return None;
            },
        };
        let goal_idx: usize = match self.idx(to) {
            Some(i) => i,
            None => {
                return None;
            },
        };
        if start_idx == goal_idx {
            proof {
                lemma_index_injective(r, from, to);
                lemma_single_least(pather, r, from, to);
            }
            return Some(vec![from]);
        }
        let len: usize = self.rng.len();
        let gen: u32 = next_generation(&mut self.astar_nodes, self.astar_generation);
        self.astar_generation = gen;
        let est: i32 = pather.estimate(from, to);
        let ghost k: int = UNREACHABLE as int;
        let start_node = Node { g: 0, f: clamp_cost(est as i64), parent: usize::MAX, generation: gen, open: true };
        self.astar_nodes.set(start_idx, start_node);
        proof {
            lemma_point_at_index(r, from);
            assert(call_ensures(P::estimate, (pather, r.points_seq()[start_idx as int], to), est));
            assert(f_ok(pather, r, self.astar_nodes@, start_idx as int, to));
        }
        let mut open = MinQueue::new();
        open.push(NodeRef { idx: start_idx, f: start_node.f });
        let ghost adm: bool = admissible(pather, r, to);
        let ghost fixed: bool = answers_fixed(pather);
        let ghost mut ans: Map<int, Seq<Point>> = Map::empty();
        let ghost mut cst: Map<(int, int), i32> = Map::empty();
        let ghost mut stamps: Seq<int> = Seq::new(len as nat, |i: int| 0int);
        let ghost mut tick: int = 1;
        proof {
            lemma_hsum_nonneg(self.astar_nodes@, gen, k);
            assert(open@[0].idx == start_idx);
            assert forall|i: int| #![trigger self.astar_nodes@[i]] 0 <= i < len && self.astar_nodes@[i].generation == gen
                implies i == start_idx by {}
            assert forall|i: int| #![trigger self.astar_nodes@[i]] 0 <= i < self.astar_nodes@.len() && self.astar_nodes@[i].generation == gen
                && self.astar_nodes@[i].open implies exists|j: int| 0 <= j < open@.len() && #[trigger] open@[j].idx == i
                && open@[j].f == self.astar_nodes@[i].f by {
                assert(i == start_idx);
                assert(open@[0].idx == i);
            }
            if adm {
                assert(call_ensures(P::estimate, (pather, from, to), est));
                assert forall|j: int| 0 <= j < open@.len() implies #[trigger] open@[j].idx < self.astar_nodes@.len()
                    && self.astar_nodes@[open@[j].idx as int].generation == gen && open@[j].f >= self.astar_nodes@[open@[j].idx as int].g by {
                    assert(j == 0);
                }
            }
        }
        let mut found: bool = false;
        loop
            invariant_except_break
                !found,
                forall|i: int| #![trigger self.astar_nodes@[i]] 0 <= i < len && self.astar_nodes@[i].generation == gen
                    && self.astar_nodes@[i].open ==> exists|j: int| 0 <= j < open@.len() && #[trigger] open@[j].idx == i,
                closed_ok(r, self.astar_nodes@, gen, ans, cst, -1, UNREACHABLE as int),
                queued_ok(self.astar_nodes@, gen, open@),
                adm ==> refs_ok(self.astar_nodes@, gen, open@),
            invariant
                self.inv(),
                adm == admissible(pather, r, to),
                fixed == answers_fixed(pather),
                self.rng == r,
                len == r.spec_len(),
                k == UNREACHABLE as int,
                self.astar_generation == gen,
                start_idx < len,
                goal_idx < len,
                start_idx == PathRange::index_of(r, from),
                goal_idx == PathRange::index_of(r, to),
                r.spec_contains(from),
                r.spec_contains(to),
                links_ok(self.astar_nodes@, gen, start_idx as int),
                forall|j: int| 0 <= j < open@.len() ==> #[trigger] open@[j].idx < len,
                seq_sum(hseq(self.astar_nodes@, gen, k)) >= 0,
                found ==> self.astar_nodes@[goal_idx as int].generation == gen,
                self.astar_nodes@[goal_idx as int].generation == gen ==> self.astar_nodes@[goal_idx as int].open,
                ranks_ok(self.astar_nodes@, gen, stamps),
                costs_ok(pather, r, self.astar_nodes@, gen, to),
                forall|i: int| 0 <= i < stamps.len() ==> #[trigger] stamps[i] < tick,
                forall|i: int| #[trigger] ans.dom().contains(i) ==> 0 <= i < len && is_answer(pather, r.points_seq()[i], ans[i]),
                forall|e: (int, int)| #[trigger] cst.dom().contains(e) ==> 0 <= e.0 < len && 0 <= e.1 < len
                    && call_ensures(P::cost, (pather, r.points_seq()[e.0], r.points_seq()[e.1]), cst[e]),
                forall|i: int| #![trigger self.astar_nodes@[i]] 0 <= i < len && self.astar_nodes@[i].generation == gen
                    && self.astar_nodes@[i].parent != usize::MAX ==> answer_step(
                    pather,
                    r.points_seq()[self.astar_nodes@[i].parent as int],
                    r.points_seq()[i],
                ),
            ensures
                !found ==> open@.len() == 0,
                !found ==> forall|i: int| #![trigger self.astar_nodes@[i]] 0 <= i < len && self.astar_nodes@[i].generation == gen
                    && self.astar_nodes@[i].open ==> exists|j: int| 0 <= j < open@.len() && #[trigger] open@[j].idx == i,
                !found ==> closed_ok(r, self.astar_nodes@, gen, ans, cst, -1, UNREACHABLE as int),
                found ==> (adm && fixed ==> goal_bound(pather, r, self.astar_nodes@[goal_idx as int].g as int, from, to)),
            decreases 2 * seq_sum(hseq(self.astar_nodes@, gen, k)) + open@.len(),
        {
            let ghost q0 = open@;
            let current = match open.pop_min() {
                Some(c) => c,
                None => {
                    break;
                },
            };
            let ci: usize = current.idx;
            let ghost kk: int = choose|kk: int| 0 <= kk < q0.len() && q0[kk] == current && open@ == q0.update(kk, q0.last()).drop_last() && (forall|j: int| 0 <= j < q0.len() ==> current.f <= #[trigger] q0[j].f);
            proof {
                lemma_pop_refs(self.astar_nodes@, gen, q0, kk, ci as int, adm);
                assert forall|i: int| #![trigger self.astar_nodes@[i]] 0 <= i < len && self.astar_nodes@[i].generation == gen
                    && self.astar_nodes@[i].open && i != ci implies exists|j: int| 0 <= j < open@.len() && #[trigger] open@[j].idx == i by {
                    lemma_pop_keeps(q0, kk, i as usize);
                }
                assert forall|j: int| 0 <= j < open@.len() implies #[trigger] open@[j].idx < len by {
                    if j == kk {
                        assert(open@[j] == q0.last());
                    } else {
                        assert(open@[j] == q0[j]);
                    }
                }
            }
            let cn = self.astar_nodes[ci];
            if cn.generation != gen || !cn.open {
                proof {
                    assert(queued_ok(self.astar_nodes@, gen, open@));
                }
                continue;
            }
            if ci == goal_idx {
                proof {
                    if adm && fixed {
                        lemma_goal_bound(pather, r, self.astar_nodes@, gen, ans, cst, q0, kk, from, to);
                    }
                }
                found = true;
                break;
            }
            let mut closed = cn;
            closed.open = false;
            proof {
                lemma_hsum_update(self.astar_nodes@, gen, k, ci as int, closed);
            }
            let ghost nodes0 = self.astar_nodes@;
            self.astar_nodes.set(ci, closed);
            proof {
                lemma_hsum_nonneg(self.astar_nodes@, gen, k);
                assert forall|i: int| #![trigger self.astar_nodes@[i]] 0 <= i < len && self.astar_nodes@[i].generation == gen
                    && self.astar_nodes@[i].parent != usize::MAX implies rank_lt(self.astar_nodes@, stamps, self.astar_nodes@[i].parent as int, i) by {
                    assert(rank_lt(nodes0, stamps, nodes0[i].parent as int, i));
                }
                assert forall|i: int| 0 <= i < nodes0.len() implies #[trigger] self.astar_nodes@[i].g == nodes0[i].g
                    && self.astar_nodes@[i].f == nodes0[i].f && self.astar_nodes@[i].parent == nodes0[i].parent
                    && self.astar_nodes@[i].generation == nodes0[i].generation by {}
                lemma_costs_keep(pather, r, nodes0, self.astar_nodes@, gen, to);
                lemma_close_refs(nodes0, gen, open@, ci as int, closed, adm);
            }
            let current_g: i32 = cn.g;
            let cp = self.point(ci);
            let nbuf = neighbor_list(pather, cp);
            proof {
                assert(call_ensures(neighbor_list::<P>, (pather, cp), nbuf));
                assert(is_answer(pather, cp, nbuf@));
                lemma_closed_update_close(r, nodes0, gen, ans, cst, ci as int, closed, UNREACHABLE as int);
                lemma_closed_new_answer(r, self.astar_nodes@, gen, ans, cst, ci as int, nbuf@, UNREACHABLE as int);
                ans = ans.insert(ci as int, nbuf@);
            }
            let ghost h0 = seq_sum(hseq(self.astar_nodes@, gen, k));
            let ghost oq0 = open@.len();
            let mut t: usize = 0;
            while t < nbuf.len()
                invariant
                    self.inv(),
                    self.rng == r,
                    len == r.spec_len(),
                    k == UNREACHABLE as int,
                    self.astar_generation == gen,
                    start_idx < len,
                    goal_idx < len,
                    ci < len,
                    ci != goal_idx,
                    cp == r.points_seq()[ci as int],
                    r.spec_contains(cp),
                    0 <= current_g < UNREACHABLE,
                    links_ok(self.astar_nodes@, gen, start_idx as int),
                    self.astar_nodes@[ci as int].generation == gen,
                    !self.astar_nodes@[ci as int].open,
                    self.astar_nodes@[ci as int].g == current_g,
                    forall|j: int| 0 <= j < open@.len() ==> #[trigger] open@[j].idx < len,
                    seq_sum(hseq(self.astar_nodes@, gen, k)) >= 0,
                    t <= nbuf@.len(),
                    2 * seq_sum(hseq(self.astar_nodes@, gen, k)) + open@.len() <= 2 * h0 + oq0,
                    self.astar_nodes@[goal_idx as int].generation == gen ==> self.astar_nodes@[goal_idx as int].open,
                    forall|i: int| #![trigger self.astar_nodes@[i]] 0 <= i < len && self.astar_nodes@[i].generation == gen
                        && self.astar_nodes@[i].open ==> exists|j: int| 0 <= j < open@.len() && #[trigger] open@[j].idx == i,
                    is_answer(pather, cp, nbuf@),
                    ans.dom().contains(ci as int),
                    ans[ci as int] == nbuf@,
                    closed_ok(r, self.astar_nodes@, gen, ans, cst, ci as int, UNREACHABLE as int),
                    expanded_ok(r, self.astar_nodes@, gen, ans, cst, ci as int, t as int, UNREACHABLE as int),
                    ranks_ok(self.astar_nodes@, gen, stamps),
                    costs_ok(pather, r, self.astar_nodes@, gen, to),
                    queued_ok(self.astar_nodes@, gen, open@),
                    adm ==> refs_ok(self.astar_nodes@, gen, open@),
                    adm == admissible(pather, r, to),
                    forall|i: int| 0 <= i < stamps.len() ==> #[trigger] stamps[i] < tick,
                    forall|i: int| #[trigger] ans.dom().contains(i) ==> 0 <= i < len && is_answer(pather, r.points_seq()[i], ans[i]),
                    forall|e: (int, int)| #[trigger] cst.dom().contains(e) ==> 0 <= e.0 < len && 0 <= e.1 < len
                        && call_ensures(P::cost, (pather, r.points_seq()[e.0], r.points_seq()[e.1]), cst[e]),
                    forall|i: int| #![trigger self.astar_nodes@[i]] 0 <= i < len && self.astar_nodes@[i].generation == gen
                        && self.astar_nodes@[i].parent != usize::MAX ==> answer_step(
                        pather,
                        r.points_seq()[self.astar_nodes@[i].parent as int],
                        r.points_seq()[i],
                    ),
                decreases nbuf@.len() - t,
            {
                let np = nbuf[t];
                t = t + 1;
                let ni: usize = match self.idx(np) {
                    Some(ni) => ni,
                    None => {
                        proof {
                            lemma_expanded_skip(r, self.astar_nodes@, gen, ans, cst, ci as int, (t - 1) as int, UNREACHABLE as int);
                        }
                        continue;
                    },
                };
                proof {
                    lemma_point_at_index(r, np);
                }
                let c: i32 = pather.cost(cp, np);
                proof {
                    assert(call_ensures(P::cost, (pather, cp, np), c));
                    assert(nbuf@[t - 1] == np);
                }
                if c < 0 {
                    proof {
                        lemma_expanded_step(r, self.astar_nodes@, gen, ans, cst, ci as int, (t - 1) as int, ni as int, c, UNREACHABLE as int);
                        cst = cst.insert((ci as int, ni as int), c);
                    }
                    continue;
                }
                let t64: i64 = current_g as i64 + c as i64;
                if t64 >= UNREACHABLE as i64 {
                    proof {
                        lemma_expanded_step(r, self.astar_nodes@, gen, ans, cst, ci as int, (t - 1) as int, ni as int, c, UNREACHABLE as int);
                        cst = cst.insert((ci as int, ni as int), c);
                    }
                    continue;
                }
                let tentative: i32 = t64 as i32;
                let n = self.astar_nodes[ni];
                if n.generation == gen && tentative >= n.g {
                    proof {
                        lemma_expanded_step(r, self.astar_nodes@, gen, ans, cst, ci as int, (t - 1) as int, ni as int, c, UNREACHABLE as int);
                        cst = cst.insert((ci as int, ni as int), c);
                    }
                    continue;
                }
                let e: i32 = pather.estimate(np, to);
                let f: i32 = clamp_cost(tentative as i64 + e as i64);
                let updated = Node { g: tentative, f, parent: ci, generation: gen, open: true };
                proof {
                    lemma_point_at_index(r, np);
                    assert(call_ensures(P::estimate, (pather, r.points_seq()[ni as int], to), e));
                    lemma_costs_update(pather, r, self.astar_nodes@, gen, to, ni as int, ci as int, updated, c, e);
                    lemma_hsum_update(self.astar_nodes@, gen, k, ni as int, updated);
                    if ni == start_idx {
                        assert(self.astar_nodes@[start_idx as int].g == 0);
                    }
                    assert(ni != ci);
                    lemma_closed_update(r, self.astar_nodes@, gen, ans, cst, ci as int, (t - 1) as int, ni as int, updated, UNREACHABLE as int);
                    lemma_rank_update(self.astar_nodes@, gen, start_idx as int, stamps, tick, ni as int, updated);
                    stamps = stamps.update(ni as int, tick);
                    tick = tick + 1;
                    assert(nbuf@[t - 1] == np);
                    assert(answer_step(pather, cp, np));
                }
                let ghost nodes1 = self.astar_nodes@;
                let ghost oq = open@;
                self.astar_nodes.set(ni, updated);
                open.push(NodeRef { idx: ni, f });
                proof {
                    if adm {
                        assert(call_ensures(P::estimate, (pather, np, to), e));
                        assert(e >= 0);
                    }
                    lemma_push_refs(nodes1, gen, oq, ni, updated, adm);
                    lemma_hsum_nonneg(self.astar_nodes@, gen, k);
                    lemma_expanded_step(r, self.astar_nodes@, gen, ans, cst, ci as int, (t - 1) as int, ni as int, c, UNREACHABLE as int);
                    cst = cst.insert((ci as int, ni as int), c);
                    assert(open@[open@.len() - 1].idx == ni);
                    assert forall|i: int| #![trigger self.astar_nodes@[i]] 0 <= i < len && self.astar_nodes@[i].generation == gen
                        && self.astar_nodes@[i].open implies exists|j: int| 0 <= j < open@.len() && #[trigger] open@[j].idx == i by {
                        if i != ni {
                            assert(nodes1[i] == self.astar_nodes@[i]);
                            let j = choose|j: int| 0 <= j < oq.len() && #[trigger] oq[j].idx == i;
                            assert(open@[j] == oq[j]);
                        }
                    }
                    assert forall|i: int| #![trigger self.astar_nodes@[i]] 0 <= i < len && self.astar_nodes@[i].generation == gen
                        && self.astar_nodes@[i].parent != usize::MAX implies answer_step(
                        pather,
                        r.points_seq()[self.astar_nodes@[i].parent as int],
                        r.points_seq()[i],
                    ) by {
                        if i != ni {
                            assert(nodes1[i] == self.astar_nodes@[i]);
                        }
                    }
                }
            }
            proof {
                lemma_closed_finish(r, self.astar_nodes@, gen, ans, cst, ci as int, UNREACHABLE as int);
            }
        }
        proof {
            self.lemma_wf();
        }
        if !found {
            proof {
                assert forall|i: int| 0 <= i < self.astar_nodes@.len() && #[trigger] self.astar_nodes@[i].generation == gen
                    implies !self.astar_nodes@[i].open by {
                    if self.astar_nodes@[i].open {
                        let j = choose|j: int| 0 <= j < open@.len() && #[trigger] open@[j].idx == i;
                    }
                }
                lemma_exhausted_search(pather, r, self.astar_nodes@, gen, ans, cst, from, to);
            }
            return None;
        }
        proof {
            vstd::set_lib::lemma_int_range(0, len as int);
            vstd::set_lib::lemma_len_subset(
                nodes_before(self.astar_nodes@, gen, stamps, goal_idx as int),
                vstd::set_lib::set_int_range(0, len as int),
            );
            lemma_reaches_root(self.astar_nodes@, gen, start_idx as int, stamps, goal_idx as int, len as nat);
        }
        let path = self.trace_path(start_idx, goal_idx);
        proof {
            self.lemma_wf();
            lemma_point_at_index(r, from);
            lemma_point_at_index(r, to);
            if path is Some {
                let p = path->0;
                {
                    assert forall|i: int| 0 <= i < p@.len() - 1 implies answer_step(pather, #[trigger] p@[i], p@[i + 1]) by {
                        assert(parent_link(r, self.astar_nodes@, gen, p@[i], p@[i + 1]));
                        let j = choose|j: int|
                            0 <= j < self.astar_nodes@.len() && self.astar_nodes@[j].generation == gen && self.astar_nodes@[j].parent != usize::MAX
                                && #[trigger] r.points_seq()[j] == p@[i + 1] && r.points_seq()[self.astar_nodes@[j].parent as int] == p@[i];
                        assert(self.astar_nodes@[j].generation == gen);
                    }
                }
            }
            if path is Some && adm && fixed {
                let p = path->0;
                lemma_path_least(pather, r, self.astar_nodes@, gen, start_idx as int, goal_idx as int, from, to, p@);
            }
        }
        path
    }
}

} // verus!
