//! Multi-source Dijkstra distance maps.
use vstd::prelude::*;

use crate::geom::{Point, Range};
use crate::paths::pathrange::{PathRange, PathNode, Node, UNREACHABLE, seq_sum, lemma_seq_sum_update,
    lemma_seq_sum_nonneg, lemma_index_of_bounds, lemma_point_at_index};
use crate::paths::queue::{MinQueue, NodeRef};
use crate::paths::traits::{WeightedPather, neighbor_list, is_answer, answer_step};
use crate::paths::astar::{usable_walk, walk_cost, answers_ok, closed_ok, expanded_ok, edge_ok, lemma_pop_keeps,
    lemma_closed_update, lemma_closed_update_close, lemma_closed_new_answer, lemma_expanded_skip, lemma_expanded_step,
    lemma_closed_finish};

verus! {

/// The potential of a node during a search of generation `gen`: its cost
/// when visited in this search, else `k`.
pub open spec fn node_h(n: Node, gen: u32, k: int) -> int {
    if n.generation == gen {
        n.g as int
    } else {
        k
    }
}

/// The potentials of all nodes.
pub open spec fn hseq(nodes: Seq<Node>, gen: u32, k: int) -> Seq<int> {
    nodes.map_values(|n: Node| node_h(n, gen, k))
}

/// Replacing a node changes the total potential by the difference.
pub proof fn lemma_hsum_update(nodes: Seq<Node>, gen: u32, k: int, i: int, n: Node)
    requires
        0 <= i < nodes.len(),
    ensures
        seq_sum(hseq(nodes.update(i, n), gen, k)) == seq_sum(hseq(nodes, gen, k)) - node_h(
            nodes[i],
            gen,
            k,
        ) + node_h(n, gen, k),
{
    assert(hseq(nodes.update(i, n), gen, k) =~= hseq(nodes, gen, k).update(i, node_h(n, gen, k)));
    lemma_seq_sum_update(hseq(nodes, gen, k), i, node_h(n, gen, k));
}

/// The total potential is non-negative when every cost is.
pub proof fn lemma_hsum_nonneg(nodes: Seq<Node>, gen: u32, k: int)
    requires
        k >= 0,
        forall|i: int| 0 <= i < nodes.len() ==> #[trigger] nodes[i].g >= 0,
    ensures
        seq_sum(hseq(nodes, gen, k)) >= 0,
{
    lemma_seq_sum_nonneg(hseq(nodes, gen, k));
}

/// The next search generation: greater than every node's. When the counter
/// would wrap, every node is first reset to generation 0.
pub fn next_generation(nodes: &mut Vec<Node>, gen: u32) -> (g: u32)
    requires
        forall|i: int| 0 <= i < old(nodes)@.len() ==> #[trigger] old(nodes)@[i].generation <= gen,
    ensures
        g >= 1,
        final(nodes)@.len() == old(nodes)@.len(),
        forall|i: int| 0 <= i < final(nodes)@.len() ==> #[trigger] final(nodes)@[i].generation < g,
        forall|i: int| #![trigger final(nodes)@[i]] 0 <= i < final(nodes)@.len() ==> final(nodes)@[i].g == old(nodes)@[i].g,
        forall|i: int| #![trigger final(nodes)@[i]] 0 <= i < final(nodes)@.len() ==> final(nodes)@[i].parent == old(nodes)@[i].parent,
{
    if gen < u32::MAX {
        return gen + 1;
    }
    let n: usize = nodes.len();
    let mut i: usize = 0;
    while i < n
        invariant
            n == nodes@.len(),
            n == old(nodes)@.len(),
            i <= n,
            forall|j: int| 0 <= j < i ==> #[trigger] nodes@[j].generation == 0,
            forall|j: int| #![trigger nodes@[j]] 0 <= j < n ==> nodes@[j].g == old(nodes)@[j].g,
            forall|j: int| #![trigger nodes@[j]] 0 <= j < n ==> nodes@[j].parent == old(nodes)@[j].parent,
        decreases n - i,
    {
        let mut nd = nodes[i];
        nd.generation = 0;
        nodes.set(i, nd);
        i = i + 1;
    }
    1
}

/// The total of the step costs `c`.
pub open spec fn cost_sum(c: Seq<i32>) -> int
    decreases c.len(),
{
    if c.len() == 0 {
        0
    } else {
        cost_sum(c.drop_last()) + c.last()
    }
}

/// Whether `w` is a walk of the range whose steps go to neighbours that
/// `pather` may list, with the non-negative costs `c` that it may give.
pub open spec fn cost_walk<P: WeightedPather>(pather: &P, r: Range, w: Seq<Point>, c: Seq<i32>) -> bool {
    &&& w.len() >= 1
    &&& c.len() == w.len() - 1
    &&& forall|i: int| 0 <= i < w.len() ==> r.spec_contains(#[trigger] w[i])
    &&& forall|i: int| 0 <= i < c.len() ==> answer_step(pather, #[trigger] w[i], w[i + 1]) && call_ensures(
        P::cost,
        (pather, w[i], w[i + 1]),
        c[i],
    ) && c[i] >= 0
}

/// Whether `p` ends a walk from one of `sources` of total cost `d`.
#[verifier::opaque]
pub open spec fn cost_reached<P: WeightedPather>(pather: &P, r: Range, sources: Seq<Point>, p: Point, d: int) -> bool {
    exists|w: Seq<Point>, c: Seq<i32>|
        #[trigger] cost_walk(pather, r, w, c) && sources.contains(w[0]) && w.last() == p && cost_sum(c) == d
}

/// A walk goes on by one more step.
#[verifier::spinoff_prover]
#[verifier::rlimit(40)]
pub proof fn lemma_cost_walk_push<P: WeightedPather>(pather: &P, r: Range, w: Seq<Point>, c: Seq<i32>, y: Point, cy: i32)
    requires
        cost_walk(pather, r, w, c),
        r.spec_contains(y),
        answer_step(pather, w.last(), y),
        call_ensures(P::cost, (pather, w.last(), y), cy),
        cy >= 0,
    ensures
        cost_walk(pather, r, w.push(y), c.push(cy)),
        w.push(y)[0] == w[0],
        w.push(y).last() == y,
        cost_sum(c.push(cy)) == cost_sum(c) + cy,
{
    let w2 = w.push(y);
    let c2 = c.push(cy);
    assert(c2.drop_last() =~= c);
    assert forall|i: int| 0 <= i < w2.len() implies r.spec_contains(#[trigger] w2[i]) by {
        if i < w.len() {
            assert(w2[i] == w[i]);
        }
    }
    assert forall|i: int| 0 <= i < c2.len() implies answer_step(pather, #[trigger] w2[i], w2[i + 1]) && call_ensures(
        P::cost,
        (pather, w2[i], w2[i + 1]),
        c2[i],
    ) && c2[i] >= 0 by {
        assert(w2[i] == w[i]);
        if i < c.len() {
            assert(w2[i + 1] == w[i + 1] && c2[i] == c[i]);
        } else {
            assert(w2[i + 1] == y && c2[i] == cy);
        }
    }
}

/// An exhausted search from `sources`, stopping at totals above `max_cost`,
/// holds the end of every walk along the recorded lists, with recorded
/// non-negative costs and a total within `max_cost`, at no more than the
/// walk's total.
#[verifier::spinoff_prover]
#[verifier::rlimit(40)]
pub proof fn lemma_dijkstra_walks(
    r: Range,
    ans: Map<Point, Seq<Point>>,
    cst: Map<(Point, Point), i32>,
    dist: Map<Point, int>,
    sources: Seq<Point>,
    max_cost: int,
    w: Seq<Point>,
)
    requires
        forall|p: Point| #[trigger] dist.dom().contains(p) ==> ans.dom().contains(p) && forall|q: Point|
            #[trigger] ans[p].contains(q) && r.spec_contains(q) ==> cst.dom().contains((p, q)) && (cst[(p, q)] < 0
            || dist[p] + cst[(p, q)] > max_cost || (dist.dom().contains(q) && dist[q] <= dist[p] + cst[(p, q)])),
        forall|t: int| 0 <= t < sources.len() && r.spec_contains(#[trigger] sources[t]) ==> dist.dom().contains(sources[t])
            && dist[sources[t]] <= 0,
        usable_walk(r, ans, cst, w),
        sources.contains(w[0]),
        walk_cost(cst, w) <= max_cost,
    ensures
        dist.dom().contains(w.last()),
        dist[w.last()] <= walk_cost(cst, w),
    decreases w.len(),
{
    if w.len() == 1 {
        let t = choose|t: int| 0 <= t < sources.len() && sources[t] == w[0];
        assert(r.spec_contains(w[0]));
    } else {
        let w2 = w.drop_last();
        let n = w.len();
        assert(cst.dom().contains((w[n - 2], w[n - 1])) && cst[(w[n - 2], w[n - 1])] >= 0);
        assert(walk_cost(cst, w) == walk_cost(cst, w2) + cst[(w[n - 2], w[n - 1])]);
        assert forall|i: int| 0 <= i < w2.len() - 1 implies cst.dom().contains((#[trigger] w2[i], w2[i + 1]))
            && cst[(w2[i], w2[i + 1])] >= 0 by {
            assert(w2[i] == w[i] && w2[i + 1] == w[i + 1]);
        }
        assert forall|i: int| 0 <= i < w2.len() - 1 implies ans.dom().contains(#[trigger] w2[i]) && ans[w2[i]].contains(
            w2[i + 1],
        ) by {
            assert(w2[i] == w[i] && w2[i + 1] == w[i + 1]);
        }
        assert forall|i: int| 0 <= i < w2.len() implies r.spec_contains(#[trigger] w2[i]) by {
            assert(w2[i] == w[i]);
        }
        assert(w2[0] == w[0]);
        lemma_seq_walk_cost_nonneg(cst, w2);
        lemma_dijkstra_walks(r, ans, cst, dist, sources, max_cost, w2);
        let a = w[n - 2];
        let b = w[n - 1];
        assert(w2.last() == a);
        assert(ans.dom().contains(a) && ans[a].contains(b));
        assert(r.spec_contains(b));
    }
}

/// The recorded cost of a walk with non-negative steps is non-negative.
pub proof fn lemma_seq_walk_cost_nonneg(cst: Map<(Point, Point), i32>, w: Seq<Point>)
    requires
        forall|i: int| 0 <= i < w.len() - 1 ==> cst[(#[trigger] w[i], w[i + 1])] >= 0,
    ensures
        walk_cost(cst, w) >= 0,
    decreases w.len(),
{
    if w.len() > 1 {
        let w2 = w.drop_last();
        assert forall|i: int| 0 <= i < w2.len() - 1 implies cst[(#[trigger] w2[i], w2[i + 1])] >= 0 by {
            assert(w2[i] == w[i] && w2[i + 1] == w[i + 1]);
        }
        lemma_seq_walk_cost_nonneg(cst, w2);
        let n = w.len();
        assert(cst[(w[n - 2], w[n - 1])] >= 0);
    }
}

/// The invariant of a Dijkstra search of generation `gen` capped at `cap`:
/// the nodes of this search hold their cost in the map, the others are
/// unreached, and every queued reference is a cell.
pub open spec fn dj_inv(r: Range, nodes: Seq<Node>, map: Seq<i32>, gen: u32, cap: int, q: Seq<NodeRef>) -> bool {
    let len = r.spec_len();
    &&& nodes.len() == len
    &&& map.len() == len
    &&& forall|i: int| 0 <= i < len ==> #[trigger] nodes[i].g >= 0
    &&& forall|i: int| 0 <= i < len ==> #[trigger] nodes[i].generation <= gen
    &&& forall|i: int| #![trigger nodes[i]] 0 <= i < len && nodes[i].generation == gen ==> map[i] == nodes[i].g && nodes[i].g <= cap
    &&& forall|i: int| #![trigger nodes[i]] 0 <= i < len && nodes[i].generation != gen ==> map[i] == UNREACHABLE
    &&& forall|k: int| 0 <= k < q.len() ==> #[trigger] q[k].idx < len
}

/// What the results of a Dijkstra search satisfy: cells of the range, at a
/// cost within the cap that is no less than the map's.
pub open spec fn dj_results(r: Range, map: Seq<i32>, cap: int, res: Seq<PathNode>) -> bool {
    forall|k: int| 0 <= k < res.len() ==> {
        &&& r.spec_contains(#[trigger] res[k].pos)
        &&& 0 <= res[k].cost <= cap
        &&& map[PathRange::index_of(r, res[k].pos)] <= res[k].cost
    }
}

/// An exhausted Dijkstra search is explained by the lists and costs that
/// its expansions recorded.
#[verifier::spinoff_prover]
#[verifier::rlimit(100)]
proof fn lemma_dijkstra_done<P: WeightedPather>(
    pr: &PathRange,
    pather: &P,
    gen: u32,
    ans: Map<int, Seq<Point>>,
    cst: Map<(int, int), i32>,
    sources: Seq<Point>,
    max_cost: int,
)
    requires
        pr.inv(),
        ({
            let r = pr.rng;
            let nodes = pr.dijkstra_nodes@;
            let m = pr.dijkstra_map@;
            let len = r.spec_len();
            &&& m.len() == len
            &&& forall|i: int| 0 <= i < len ==> #[trigger] nodes[i].g >= 0
            &&& forall|i: int| #![trigger nodes[i]] 0 <= i < len && nodes[i].generation == gen ==> m[i] == nodes[i].g
            &&& forall|i: int| #![trigger nodes[i]] 0 <= i < len && nodes[i].generation != gen ==> m[i] == UNREACHABLE
            &&& forall|i: int| 0 <= i < len && #[trigger] nodes[i].generation == gen ==> !nodes[i].open
            &&& closed_ok(r, nodes, gen, ans, cst, -1, max_cost + 1)
            &&& forall|i: int| #![trigger nodes[i]] 0 <= i < len && nodes[i].generation == gen ==> cost_reached(
                pather,
                r,
                sources,
                r.points_seq()[i],
                nodes[i].g as int,
            )
            &&& forall|i: int| #[trigger] ans.dom().contains(i) ==> 0 <= i < len && is_answer(pather, r.points_seq()[i], ans[i])
                && nodes[i].generation == gen
            &&& forall|e: (int, int)| #[trigger] cst.dom().contains(e) ==> 0 <= e.0 < len && 0 <= e.1 < len && call_ensures(
                P::cost,
                (pather, r.points_seq()[e.0], r.points_seq()[e.1]),
                cst[e],
            )
            &&& forall|t: int| 0 <= t < sources.len() && r.spec_contains(#[trigger] sources[t]) ==> ({
                let n = nodes[PathRange::index_of(r, sources[t])];
                n.generation == gen && n.g == 0
            })
        }),
    ensures
        exists|pans: Map<Point, Seq<Point>>, pcst: Map<(Point, Point), i32>|
            #[trigger] pr.dijkstra_explained_by(pather, pans, pcst, sources, max_cost),
{
    pr.lemma_wf();
    let r = pr.rng;
    let nodes = pr.dijkstra_nodes@;
    let m = pr.dijkstra_map@;
    let pans = Map::new(|p: Point| r.spec_contains(p) && ans.dom().contains(PathRange::index_of(r, p)), |p: Point| ans[PathRange::index_of(r, p)]);
    let pcst = Map::new(|e: (Point, Point)| r.spec_contains(e.0) && r.spec_contains(e.1) && cst.dom().contains((PathRange::index_of(r, e.0), PathRange::index_of(r, e.1))),
        |e: (Point, Point)| cst[(PathRange::index_of(r, e.0), PathRange::index_of(r, e.1))]);
    let dist = Map::new(|p: Point| r.spec_contains(p) && nodes[PathRange::index_of(r, p)].generation == gen, |p: Point| nodes[PathRange::index_of(r, p)].g as int);
    lemma_dj_answers(pather, r, nodes.len() as int, ans, cst, pans, pcst);
    lemma_dj_sound(pather, r, nodes, m, gen, ans, cst, sources, max_cost, pans);
    assert forall|q: Point| #[trigger] pans.dom().contains(q) implies r.spec_contains(q) && cost_reached(
        pather,
        r,
        sources,
        q,
        pr.spec_dijkstra_at(q) as int,
    ) by {
        assert(cost_reached(pather, r, sources, q, m[PathRange::index_of(r, q)] as int));
    }
    assert forall|q: Point| r.spec_contains(q) && #[trigger] pr.spec_dijkstra_at(q) != UNREACHABLE implies pans.dom().contains(q) by {
        assert(m[PathRange::index_of(r, q)] != UNREACHABLE);
    }
    lemma_dj_closure(r, nodes, gen, ans, cst, max_cost, pans, pcst, dist);
    assert forall|t: int| 0 <= t < sources.len() && r.spec_contains(#[trigger] sources[t]) implies dist.dom().contains(sources[t])
        && dist[sources[t]] <= 0 by {
        lemma_index_of_bounds(r, sources[t]);
    }
    assert forall|w: Seq<Point>| #[trigger] usable_walk(r, pans, pcst, w) && sources.contains(w[0]) && walk_cost(pcst, w) <= max_cost
        implies pr.spec_dijkstra_at(w.last()) <= walk_cost(pcst, w) by {
        lemma_dijkstra_walks(r, pans, pcst, dist, sources, max_cost, w);
        lemma_index_of_bounds(r, w.last());
    }
    assert(pr.dijkstra_explained_by(pather, pans, pcst, sources, max_cost));
}

/// A source in the range is reached from itself at no cost.
proof fn lemma_source_reached<P: WeightedPather>(pather: &P, r: Range, sources: Seq<Point>, j: int)
    requires
        0 <= j < sources.len(),
        r.spec_contains(sources[j]),
    ensures
        cost_reached(pather, r, sources, sources[j], 0),
{
    reveal(cost_reached);
    let w = seq![sources[j]];
    let c = Seq::<i32>::empty();
    assert(cost_walk(pather, r, w, c));
    assert(w.last() == sources[j] && w[0] == sources[j]);
    assert(sources.contains(w[0]));
    assert(cost_sum(c) == 0);
}

/// The lists and costs recorded by index, keyed by point, are answers of
/// `pather`.
proof fn lemma_dj_answers<P: WeightedPather>(
    pather: &P,
    r: Range,
    len: int,
    ans: Map<int, Seq<Point>>,
    cst: Map<(int, int), i32>,
    pans: Map<Point, Seq<Point>>,
    pcst: Map<(Point, Point), i32>,
)
    requires
        r.dims_fit(),
        forall|i: int| #[trigger] ans.dom().contains(i) ==> is_answer(pather, r.points_seq()[i], ans[i]),
        forall|e: (int, int)| #[trigger] cst.dom().contains(e) ==> call_ensures(
            P::cost,
            (pather, r.points_seq()[e.0], r.points_seq()[e.1]),
            cst[e],
        ),
        pans == Map::new(|p: Point| r.spec_contains(p) && ans.dom().contains(PathRange::index_of(r, p)), |p: Point| ans[PathRange::index_of(r, p)]),
        pcst == Map::new(|e: (Point, Point)| r.spec_contains(e.0) && r.spec_contains(e.1) && cst.dom().contains((PathRange::index_of(r, e.0), PathRange::index_of(r, e.1))),
            |e: (Point, Point)| cst[(PathRange::index_of(r, e.0), PathRange::index_of(r, e.1))]),
    ensures
        answers_ok(pather, pans, pcst),
{
    assert forall|p: Point| #[trigger] pans.dom().contains(p) implies is_answer(pather, p, pans[p]) by {
        lemma_point_at_index(r, p);
    }
    assert forall|e: (Point, Point)| #[trigger] pcst.dom().contains(e) implies call_ensures(P::cost, (pather, e.0, e.1), pcst[e]) by {
        lemma_point_at_index(r, e.0);
        lemma_point_at_index(r, e.1);
    }
}

/// The closed nodes of an exhausted search, keyed by point, close the
/// search.
#[verifier::spinoff_prover]
#[verifier::rlimit(60)]
proof fn lemma_dj_closure(
    r: Range,
    nodes: Seq<Node>,
    gen: u32,
    ans: Map<int, Seq<Point>>,
    cst: Map<(int, int), i32>,
    max_cost: int,
    pans: Map<Point, Seq<Point>>,
    pcst: Map<(Point, Point), i32>,
    dist: Map<Point, int>,
)
    requires
        r.dims_fit(),
        nodes.len() == r.spec_len(),
        forall|i: int| 0 <= i < nodes.len() && #[trigger] nodes[i].generation == gen ==> !nodes[i].open,
        closed_ok(r, nodes, gen, ans, cst, -1, max_cost + 1),
        forall|i: int| #[trigger] ans.dom().contains(i) ==> 0 <= i < nodes.len() && nodes[i].generation == gen,
        pans == Map::new(|p: Point| r.spec_contains(p) && ans.dom().contains(PathRange::index_of(r, p)), |p: Point| ans[PathRange::index_of(r, p)]),
        pcst == Map::new(|e: (Point, Point)| r.spec_contains(e.0) && r.spec_contains(e.1) && cst.dom().contains((PathRange::index_of(r, e.0), PathRange::index_of(r, e.1))),
            |e: (Point, Point)| cst[(PathRange::index_of(r, e.0), PathRange::index_of(r, e.1))]),
        dist == Map::new(|p: Point| r.spec_contains(p) && nodes[PathRange::index_of(r, p)].generation == gen, |p: Point| nodes[PathRange::index_of(r, p)].g as int),
    ensures
        forall|p: Point| #[trigger] dist.dom().contains(p) ==> pans.dom().contains(p) && forall|q: Point|
            #[trigger] pans[p].contains(q) && r.spec_contains(q) ==> pcst.dom().contains((p, q)) && (pcst[(p, q)] < 0
            || dist[p] + pcst[(p, q)] > max_cost || (dist.dom().contains(q) && dist[q] <= dist[p] + pcst[(p, q)])),
        forall|p: Point, q: Point| #[trigger] pans.dom().contains(p) && #[trigger] pans[p].contains(q) && r.spec_contains(q)
            ==> pcst.dom().contains((p, q)),
{
    assert forall|p: Point, q: Point| #[trigger] pans.dom().contains(p) && #[trigger] pans[p].contains(q) && r.spec_contains(q)
        implies pcst.dom().contains((p, q)) by {
        let i = PathRange::index_of(r, p);
        lemma_index_of_bounds(r, p);
        lemma_index_of_bounds(r, q);
        let k = choose|k: int| 0 <= k < ans[i].len() && ans[i][k] == q;
        assert(r.spec_contains(ans[i][k]));
        assert(nodes[i].generation == gen);
        assert(expanded_ok(r, nodes, gen, ans, cst, i, ans[i].len() as int, max_cost + 1));
    }
    assert forall|p: Point| #[trigger] dist.dom().contains(p) implies pans.dom().contains(p) && forall|q: Point|
        #[trigger] pans[p].contains(q) && r.spec_contains(q) ==> pcst.dom().contains((p, q)) && (pcst[(p, q)] < 0
        || dist[p] + pcst[(p, q)] > max_cost || (dist.dom().contains(q) && dist[q] <= dist[p] + pcst[(p, q)])) by {
        let i = PathRange::index_of(r, p);
        lemma_index_of_bounds(r, p);
        assert(ans.dom().contains(i) && expanded_ok(r, nodes, gen, ans, cst, i, ans[i].len() as int, max_cost + 1));
        assert forall|q: Point| #[trigger] pans[p].contains(q) && r.spec_contains(q) implies pcst.dom().contains((p, q)) && (pcst[(p, q)] < 0
            || dist[p] + pcst[(p, q)] > max_cost || (dist.dom().contains(q) && dist[q] <= dist[p] + pcst[(p, q)])) by {
            let k = choose|k: int| 0 <= k < ans[i].len() && ans[i][k] == q;
            let b = PathRange::index_of(r, q);
            lemma_index_of_bounds(r, q);
            assert(r.spec_contains(ans[i][k]));
            assert(edge_ok(nodes, gen, i, b, cst[(i, b)], max_cost + 1));
        }
    }
}

/// Every listed point of an exhausted search is reached at its cost, and
/// every reached point is listed.
#[verifier::spinoff_prover]
#[verifier::rlimit(60)]
proof fn lemma_dj_sound<P: WeightedPather>(
    pather: &P,
    r: Range,
    nodes: Seq<Node>,
    m: Seq<i32>,
    gen: u32,
    ans: Map<int, Seq<Point>>,
    cst: Map<(int, int), i32>,
    sources: Seq<Point>,
    max_cost: int,
    pans: Map<Point, Seq<Point>>,
)
    requires
        r.dims_fit(),
        nodes.len() == r.spec_len(),
        m.len() == r.spec_len(),
        forall|i: int| #![trigger nodes[i]] 0 <= i < nodes.len() && nodes[i].generation == gen ==> m[i] == nodes[i].g,
        forall|i: int| #![trigger nodes[i]] 0 <= i < nodes.len() && nodes[i].generation != gen ==> m[i] == UNREACHABLE,
        forall|i: int| 0 <= i < nodes.len() && #[trigger] nodes[i].generation == gen ==> !nodes[i].open,
        closed_ok(r, nodes, gen, ans, cst, -1, max_cost + 1),
        forall|i: int| #![trigger nodes[i]] 0 <= i < nodes.len() && nodes[i].generation == gen ==> cost_reached(
            pather,
            r,
            sources,
            r.points_seq()[i],
            nodes[i].g as int,
        ),
        forall|i: int| #[trigger] ans.dom().contains(i) ==> 0 <= i < nodes.len() && nodes[i].generation == gen,
        pans == Map::new(|p: Point| r.spec_contains(p) && ans.dom().contains(PathRange::index_of(r, p)), |p: Point| ans[PathRange::index_of(r, p)]),
    ensures
        forall|q: Point| #[trigger] pans.dom().contains(q) ==> r.spec_contains(q) && cost_reached(
            pather,
            r,
            sources,
            q,
            m[PathRange::index_of(r, q)] as int,
        ),
        forall|q: Point| r.spec_contains(q) && m[PathRange::index_of(r, q)] != UNREACHABLE ==> #[trigger] pans.dom().contains(q),
{
    assert forall|q: Point| #[trigger] pans.dom().contains(q) implies r.spec_contains(q) && cost_reached(
        pather,
        r,
        sources,
        q,
        m[PathRange::index_of(r, q)] as int,
    ) by {
        lemma_point_at_index(r, q);
        let i = PathRange::index_of(r, q);
        assert(nodes[i].generation == gen);
    }
    assert forall|q: Point| r.spec_contains(q) && m[PathRange::index_of(r, q)] != UNREACHABLE implies #[trigger] pans.dom().contains(q) by {
        lemma_index_of_bounds(r, q);
        let i = PathRange::index_of(r, q);
        assert(nodes[i].generation == gen);
        assert(ans.dom().contains(i));
    }
}

/// Reaching a point at some cost, and a listed neighbour of it in the range
/// by a non-negative answered step cost, reaches the neighbour at the sum.
proof fn lemma_cost_reached_step<P: WeightedPather>(pather: &P, r: Range, sources: Seq<Point>, p: Point, d: int, y: Point, cy: i32)
    requires
        cost_reached(pather, r, sources, p, d),
        answer_step(pather, p, y),
        call_ensures(P::cost, (pather, p, y), cy),
        cy >= 0,
        r.spec_contains(y),
    ensures
        cost_reached(pather, r, sources, y, d + cy),
{
    reveal(cost_reached);
    let (w, c) = choose|w: Seq<Point>, c: Seq<i32>|
        #[trigger] cost_walk(pather, r, w, c) && sources.contains(w[0]) && w.last() == p && cost_sum(c) == d;
    lemma_cost_walk_push(pather, r, w, c, y, cy);
    assert(sources.contains(w.push(y)[0]));
}

impl PathRange {
    /// The Dijkstra costs of the last `dijkstra_map` call, one per cell.
    pub closed spec fn spec_dijkstra_map(&self) -> Seq<i32> {
        self.dijkstra_map@
    }

    /// The Dijkstra cost of `p` from the last `dijkstra_map` call;
    /// `UNREACHABLE` outside the range.
    pub open spec fn spec_dijkstra_at(&self, p: Point) -> i32 {
        if self.spec_range().spec_contains(p) {
            self.spec_dijkstra_map()[PathRange::index_of(self.spec_range(), p)]
        } else {
            UNREACHABLE
        }
    }

    /// Whether the costs of the last `dijkstra_map` call are explained by
    /// the neighbour lists `ans` and step costs `cst`, answers that `pather`
    /// may give: `ans` holds lists for exactly the reached cells (a cell at
    /// cost `UNREACHABLE` aside), each reached cell ends a walk from one of
    /// `sources` whose answered step costs add up to its cost, every listed
    /// neighbour in the range of a reached cell has a recorded step cost, and
    /// every walk from a source along the lists, with recorded non-negative
    /// step costs adding up to at most `max_cost`, ends at a cell whose cost
    /// is no more than that total.
    pub open spec fn dijkstra_explained_by<P: WeightedPather>(
        &self,
        pather: &P,
        ans: Map<Point, Seq<Point>>,
        cst: Map<(Point, Point), i32>,
        sources: Seq<Point>,
        max_cost: int,
    ) -> bool {
        let r = self.spec_range();
        &&& answers_ok(pather, ans, cst)
        &&& forall|q: Point| #[trigger] ans.dom().contains(q) ==> r.spec_contains(q) && cost_reached(
            pather,
            r,
            sources,
            q,
            self.spec_dijkstra_at(q) as int,
        )
        &&& forall|q: Point| r.spec_contains(q) && #[trigger] self.spec_dijkstra_at(q) != UNREACHABLE ==> ans.dom().contains(q)
        &&& forall|p: Point, q: Point| #[trigger] ans.dom().contains(p) && #[trigger] ans[p].contains(q) && r.spec_contains(q)
            ==> cst.dom().contains((p, q))
        &&& forall|w: Seq<Point>| #[trigger] usable_walk(r, ans, cst, w) && sources.contains(w[0]) && walk_cost(cst, w) <= max_cost
            ==> self.spec_dijkstra_at(w.last()) <= walk_cost(cst, w)
    }

    /// Compute a multi-source Dijkstra distance map.
    ///
    /// Every source starts at cost 0; expansion stops where the cumulative
    /// cost exceeds `max_cost`; edges of negative cost are ignored. The
    /// result lists the cells in the order they are settled, with their
    /// cost; `dijkstra_at` then gives each cell's cost, or `UNREACHABLE`:
    /// the least total cost from a source along the neighbour lists and
    /// costs that `pather` gave (see
    /// [`dijkstra_explained_by`](Self::dijkstra_explained_by)).
    #[verifier::spinoff_prover]
    #[verifier::rlimit(100)]
    pub fn dijkstra_map<P: WeightedPather>(&mut self, pather: &P, sources: &[Point], max_cost: i32) -> (res: &[PathNode])
        requires
            old(self).wf(),
        ensures
            final(self).wf(),
            final(self).spec_range() == old(self).spec_range(),
            ({
                let r = final(self).spec_range();
                let cap = if max_cost >= 0 { max_cost as int } else { 0 };
                &&& forall|k: int| 0 <= k < res@.len() ==> {
                    &&& r.spec_contains(#[trigger] res@[k].pos)
                    &&& 0 <= res@[k].cost <= cap
                    &&& final(self).spec_dijkstra_at(res@[k].pos) <= res@[k].cost
                }
                &&& forall|p: Point| #[trigger] final(self).spec_dijkstra_at(p) == UNREACHABLE
                    || 0 <= final(self).spec_dijkstra_at(p) <= cap
                &&& forall|j: int| 0 <= j < sources@.len() && r.spec_contains(#[trigger] sources@[j])
                    ==> final(self).spec_dijkstra_at(sources@[j]) == 0
            }),
            exists|ans: Map<Point, Seq<Point>>, cst: Map<(Point, Point), i32>|
                #[trigger] final(self).dijkstra_explained_by(pather, ans, cst, sources@, max_cost as int),
    {
        proof {
            self.lemma_wf();
        }
        let len: usize = self.rng.len();
        let ghost r = self.rng;
        let ghost cap: int = if max_cost >= 0 { max_cost as int } else { 0 };
        let ghost lim: int = max_cost + 1;
        let gen: u32 = next_generation(&mut self.dijkstra_nodes, self.dijkstra_generation);
        self.dijkstra_generation = gen;
        let mut i: usize = 0;
        while i < len
            invariant
                self.inv(),
                self.rng == r,
                len == r.spec_len(),
                i <= len,
                self.dijkstra_generation == gen,
                forall|j: int| 0 <= j < len ==> #[trigger] self.dijkstra_nodes@[j].generation < gen,
                forall|j: int| 0 <= j < i ==> self.dijkstra_map@[j] == UNREACHABLE,
            decreases len - i,
        {
            self.dijkstra_map.set(i, UNREACHABLE);
            i = i + 1;
        }
        self.dijkstra_results.clear();
        let mut open = MinQueue::new();
        let ghost mut ans: Map<int, Seq<Point>> = Map::empty();
        let ghost mut cst: Map<(int, int), i32> = Map::empty();
        let mut j: usize = 0;
        while j < sources.len()
            invariant
                self.inv(),
                self.rng == r,
                len == r.spec_len(),
                cap == (if max_cost >= 0 { max_cost as int } else { 0 }),
                self.dijkstra_generation == gen,
                j <= sources@.len(),
                dj_inv(r, self.dijkstra_nodes@, self.dijkstra_map@, gen, cap, open@),
                self.dijkstra_results@.len() == 0,
                forall|t: int| 0 <= t < j && r.spec_contains(#[trigger] sources@[t]) ==> ({
                    let n = self.dijkstra_nodes@[PathRange::index_of(r, sources@[t])];
                    n.generation == gen && n.g == 0
                }),
                forall|i: int| #![trigger self.dijkstra_nodes@[i]] 0 <= i < len && self.dijkstra_nodes@[i].generation == gen
                    ==> self.dijkstra_nodes@[i].open,
                forall|i: int| #![trigger self.dijkstra_nodes@[i]] 0 <= i < len && self.dijkstra_nodes@[i].generation == gen
                    ==> exists|jj: int| 0 <= jj < open@.len() && #[trigger] open@[jj].idx == i,
                forall|i: int| #![trigger self.dijkstra_nodes@[i]] 0 <= i < len && self.dijkstra_nodes@[i].generation == gen
                    ==> cost_reached(pather, r, sources@, r.points_seq()[i], self.dijkstra_nodes@[i].g as int),
            decreases sources@.len() - j,
        {
            let src = sources[j];
            match self.idx(src) {
                Some(si) => {
                    let ghost n0 = self.dijkstra_nodes@;
                    let ghost oq = open@;
                    let mut n = self.dijkstra_nodes[si];
                    n.g = 0;
                    n.f = 0;
                    n.generation = gen;
                    n.open = true;
                    self.dijkstra_nodes.set(si, n);
                    self.dijkstra_map.set(si, 0);
                    open.push(NodeRef { idx: si, f: 0 });
                    proof {
                        assert forall|t: int| 0 <= t < j + 1 && r.spec_contains(#[trigger] sources@[t]) implies ({
                            let n = self.dijkstra_nodes@[PathRange::index_of(r, sources@[t])];
                            n.generation == gen && n.g == 0
                        }) by {
                            lemma_index_of_bounds(r, sources@[t]);
                        }
                        lemma_point_at_index(r, src);
                        assert(sources@[j as int] == src);
                        lemma_source_reached(pather, r, sources@, j as int);
                        assert forall|i: int| #![trigger self.dijkstra_nodes@[i]] 0 <= i < len && self.dijkstra_nodes@[i].generation == gen
                            implies exists|jj: int| 0 <= jj < open@.len() && #[trigger] open@[jj].idx == i by {
                            if i == si {
                                assert(open@[open@.len() - 1].idx == si);
                            } else {
                                assert(n0[i] == self.dijkstra_nodes@[i]);
                                let jj = choose|jj: int| 0 <= jj < oq.len() && #[trigger] oq[jj].idx == i;
                                assert(open@[jj] == oq[jj]);
                            }
                        }
                        assert forall|i: int| #![trigger self.dijkstra_nodes@[i]] 0 <= i < len && self.dijkstra_nodes@[i].generation == gen
                            implies cost_reached(pather, r, sources@, r.points_seq()[i], self.dijkstra_nodes@[i].g as int) by {
                            if i != si {
                                assert(n0[i] == self.dijkstra_nodes@[i]);
                            }
                        }
                        assert forall|i: int| #![trigger self.dijkstra_nodes@[i]] 0 <= i < len && self.dijkstra_nodes@[i].generation == gen
                            implies self.dijkstra_nodes@[i].open by {
                            if i != si {
                                assert(n0[i] == self.dijkstra_nodes@[i]);
                            }
                        }
                    }
                },
                None => {},
            }
            j = j + 1;
        }
        let ghost k: int = cap + 1;
        proof {
            lemma_hsum_nonneg(self.dijkstra_nodes@, gen, k);
        }
        loop
            invariant_except_break
                forall|i: int| #![trigger self.dijkstra_nodes@[i]] 0 <= i < len && self.dijkstra_nodes@[i].generation == gen
                    && self.dijkstra_nodes@[i].open ==> exists|jj: int| 0 <= jj < open@.len() && #[trigger] open@[jj].idx == i,
                closed_ok(r, self.dijkstra_nodes@, gen, ans, cst, -1, lim),
            invariant
                self.inv(),
                self.rng == r,
                len == r.spec_len(),
                cap == (if max_cost >= 0 { max_cost as int } else { 0 }),
                lim == max_cost + 1,
                k == cap + 1,
                self.dijkstra_generation == gen,
                dj_inv(r, self.dijkstra_nodes@, self.dijkstra_map@, gen, cap, open@),
                dj_results(r, self.dijkstra_map@, cap, self.dijkstra_results@),
                seq_sum(hseq(self.dijkstra_nodes@, gen, k)) >= 0,
                forall|t: int| 0 <= t < sources@.len() && r.spec_contains(#[trigger] sources@[t]) ==> ({
                    let n = self.dijkstra_nodes@[PathRange::index_of(r, sources@[t])];
                    n.generation == gen && n.g == 0
                }),
                forall|i: int| #![trigger self.dijkstra_nodes@[i]] 0 <= i < len && self.dijkstra_nodes@[i].generation == gen
                    ==> cost_reached(pather, r, sources@, r.points_seq()[i], self.dijkstra_nodes@[i].g as int),
                forall|i: int| #[trigger] ans.dom().contains(i) ==> 0 <= i < len && is_answer(pather, r.points_seq()[i], ans[i])
                    && self.dijkstra_nodes@[i].generation == gen,
                forall|e: (int, int)| #[trigger] cst.dom().contains(e) ==> 0 <= e.0 < len && 0 <= e.1 < len
                    && call_ensures(P::cost, (pather, r.points_seq()[e.0], r.points_seq()[e.1]), cst[e]),
            ensures
                open@.len() == 0,
                forall|i: int| #![trigger self.dijkstra_nodes@[i]] 0 <= i < len && self.dijkstra_nodes@[i].generation == gen
                    && self.dijkstra_nodes@[i].open ==> exists|jj: int| 0 <= jj < open@.len() && #[trigger] open@[jj].idx == i,
                closed_ok(r, self.dijkstra_nodes@, gen, ans, cst, -1, lim),
            decreases 2 * seq_sum(hseq(self.dijkstra_nodes@, gen, k)) + open@.len(),
        {
            let ghost q0 = open@;
            let current = match open.pop_min() {
                Some(c) => c,
                None => {
                    break;
                },
            };
            let ci: usize = current.idx;
            proof {
                let kk = choose|kk: int| 0 <= kk < q0.len() && q0[kk] == current && open@ == q0.update(kk, q0.last()).drop_last() && (forall|j: int| 0 <= j < q0.len() ==> current.f <= #[trigger] q0[j].f);
                assert forall|i: int| #![trigger self.dijkstra_nodes@[i]] 0 <= i < len && self.dijkstra_nodes@[i].generation == gen
                    && self.dijkstra_nodes@[i].open && i != ci implies exists|jj: int| 0 <= jj < open@.len() && #[trigger] open@[jj].idx == i by {
                    lemma_pop_keeps(q0, kk, i as usize);
                }
                assert forall|jj: int| 0 <= jj < open@.len() implies #[trigger] open@[jj].idx < len by {
                    if jj == kk {
                        assert(open@[jj] == q0.last());
                    } else {
                        assert(open@[jj] == q0[jj]);
                    }
                }
            }
            let cn = self.dijkstra_nodes[ci];
            if cn.generation != gen || !cn.open {
                continue;
            }
            let current_g: i32 = cn.g;
            let mut closed = cn;
            closed.open = false;
            proof {
                lemma_hsum_update(self.dijkstra_nodes@, gen, k, ci as int, closed);
            }
            let ghost nb = self.dijkstra_nodes@;
            self.dijkstra_nodes.set(ci, closed);
            let cp = self.point(ci);
            proof {
                lemma_hsum_nonneg(self.dijkstra_nodes@, gen, k);
                assert forall|s: int| 0 <= s < sources@.len() && r.spec_contains(#[trigger] sources@[s]) implies ({
                    let n = self.dijkstra_nodes@[PathRange::index_of(r, sources@[s])];
                    n.generation == gen && n.g == 0
                }) by {
                    lemma_index_of_bounds(r, sources@[s]);
                    assert(nb[PathRange::index_of(r, sources@[s])].generation == gen);
                }
                assert forall|i: int| #![trigger self.dijkstra_nodes@[i]] 0 <= i < len && self.dijkstra_nodes@[i].generation == gen
                    implies cost_reached(pather, r, sources@, r.points_seq()[i], self.dijkstra_nodes@[i].g as int) by {
                    assert(nb[i].generation == gen && nb[i].g == self.dijkstra_nodes@[i].g);
                }
            }
            self.dijkstra_results.push(PathNode { pos: cp, cost: current_g });
            let nbuf = neighbor_list(pather, cp);
            proof {
                assert(call_ensures(neighbor_list::<P>, (pather, cp), nbuf));
                lemma_closed_update_close(r, nb, gen, ans, cst, ci as int, closed, lim);
                lemma_closed_new_answer(r, self.dijkstra_nodes@, gen, ans, cst, ci as int, nbuf@, lim);
                ans = ans.insert(ci as int, nbuf@);
            }
            let ghost h0 = seq_sum(hseq(self.dijkstra_nodes@, gen, k));
            let ghost q1 = open@.len();
            let mut t: usize = 0;
            while t < nbuf.len()
                invariant
                    self.inv(),
                    self.rng == r,
                    len == r.spec_len(),
                    cap == (if max_cost >= 0 { max_cost as int } else { 0 }),
                    lim == max_cost + 1,
                    k == cap + 1,
                    self.dijkstra_generation == gen,
                    dj_inv(r, self.dijkstra_nodes@, self.dijkstra_map@, gen, cap, open@),
                    dj_results(r, self.dijkstra_map@, cap, self.dijkstra_results@),
                    seq_sum(hseq(self.dijkstra_nodes@, gen, k)) >= 0,
                    forall|s: int| 0 <= s < sources@.len() && r.spec_contains(#[trigger] sources@[s]) ==> ({
                        let n = self.dijkstra_nodes@[PathRange::index_of(r, sources@[s])];
                        n.generation == gen && n.g == 0
                    }),
                    0 <= current_g <= cap,
                    t <= nbuf@.len(),
                    2 * seq_sum(hseq(self.dijkstra_nodes@, gen, k)) + open@.len() <= 2 * h0 + q1,
                    ci < len,
                    cp == r.points_seq()[ci as int],
                    r.spec_contains(cp),
                    self.dijkstra_nodes@[ci as int].generation == gen,
                    !self.dijkstra_nodes@[ci as int].open,
                    self.dijkstra_nodes@[ci as int].g == current_g,
                    is_answer(pather, cp, nbuf@),
                    ans.dom().contains(ci as int),
                    ans[ci as int] == nbuf@,
                    closed_ok(r, self.dijkstra_nodes@, gen, ans, cst, ci as int, lim),
                    expanded_ok(r, self.dijkstra_nodes@, gen, ans, cst, ci as int, t as int, lim),
                    forall|i: int| #![trigger self.dijkstra_nodes@[i]] 0 <= i < len && self.dijkstra_nodes@[i].generation == gen
                        && self.dijkstra_nodes@[i].open ==> exists|jj: int| 0 <= jj < open@.len() && #[trigger] open@[jj].idx == i,
                    forall|i: int| #![trigger self.dijkstra_nodes@[i]] 0 <= i < len && self.dijkstra_nodes@[i].generation == gen
                        ==> cost_reached(pather, r, sources@, r.points_seq()[i], self.dijkstra_nodes@[i].g as int),
                    forall|i: int| #[trigger] ans.dom().contains(i) ==> 0 <= i < len && is_answer(pather, r.points_seq()[i], ans[i])
                        && self.dijkstra_nodes@[i].generation == gen,
                    forall|e: (int, int)| #[trigger] cst.dom().contains(e) ==> 0 <= e.0 < len && 0 <= e.1 < len
                        && call_ensures(P::cost, (pather, r.points_seq()[e.0], r.points_seq()[e.1]), cst[e]),
                decreases nbuf@.len() - t,
            {
                let np = nbuf[t];
                t = t + 1;
                let ni: usize = match self.idx(np) {
                    Some(ni) => ni,
                    None => {
                        proof {
                            lemma_expanded_skip(r, self.dijkstra_nodes@, gen, ans, cst, ci as int, (t - 1) as int, lim);
                        }
                        continue;
                    },
                };
                proof {
                    lemma_point_at_index(r, np);
                    assert(nbuf@[t - 1] == np);
                }
                let c: i32 = pather.cost(cp, np);
                proof {
                    assert(call_ensures(P::cost, (pather, cp, np), c));
                }
                if c < 0 {
                    proof {
                        lemma_expanded_step(r, self.dijkstra_nodes@, gen, ans, cst, ci as int, (t - 1) as int, ni as int, c, lim);
                        cst = cst.insert((ci as int, ni as int), c);
                    }
                    continue;
                }
                let t64: i64 = current_g as i64 + c as i64;
                if t64 > max_cost as i64 {
                    proof {
                        lemma_expanded_step(r, self.dijkstra_nodes@, gen, ans, cst, ci as int, (t - 1) as int, ni as int, c, lim);
                        cst = cst.insert((ci as int, ni as int), c);
                    }
                    continue;
                }
                let tentative: i32 = t64 as i32;
                let n = self.dijkstra_nodes[ni];
                if n.generation == gen && tentative >= n.g {
                    proof {
                        lemma_expanded_step(r, self.dijkstra_nodes@, gen, ans, cst, ci as int, (t - 1) as int, ni as int, c, lim);
                        cst = cst.insert((ci as int, ni as int), c);
                    }
                    continue;
                }
                let updated = Node { g: tentative, f: tentative, parent: n.parent, generation: gen, open: true };
                proof {
                    lemma_hsum_update(self.dijkstra_nodes@, gen, k, ni as int, updated);
                    assert(ni != ci);
                    lemma_closed_update(r, self.dijkstra_nodes@, gen, ans, cst, ci as int, (t - 1) as int, ni as int, updated, lim);
                    assert(cost_reached(pather, r, sources@, cp, current_g as int));
                    assert(answer_step(pather, cp, np));
                    lemma_cost_reached_step(pather, r, sources@, cp, current_g as int, np, c);
                }
                let ghost m0 = self.dijkstra_map@;
                let ghost n0 = self.dijkstra_nodes@;
                let ghost oq = open@;
                self.dijkstra_nodes.set(ni, updated);
                self.dijkstra_map.set(ni, tentative);
                open.push(NodeRef { idx: ni, f: tentative });
                proof {
                    lemma_hsum_nonneg(self.dijkstra_nodes@, gen, k);
                    lemma_expanded_step(r, self.dijkstra_nodes@, gen, ans, cst, ci as int, (t - 1) as int, ni as int, c, lim);
                    cst = cst.insert((ci as int, ni as int), c);
                    assert forall|s: int| 0 <= s < sources@.len() && r.spec_contains(#[trigger] sources@[s]) implies ({
                        let n = self.dijkstra_nodes@[PathRange::index_of(r, sources@[s])];
                        n.generation == gen && n.g == 0
                    }) by {
                        lemma_index_of_bounds(r, sources@[s]);
                    }
                    assert forall|kk: int| 0 <= kk < self.dijkstra_results@.len() implies {
                        &&& r.spec_contains(#[trigger] self.dijkstra_results@[kk].pos)
                        &&& 0 <= self.dijkstra_results@[kk].cost <= cap
                        &&& self.dijkstra_map@[PathRange::index_of(r, self.dijkstra_results@[kk].pos)]
                            <= self.dijkstra_results@[kk].cost
                    } by {
                        let pi = PathRange::index_of(r, self.dijkstra_results@[kk].pos);
                        lemma_index_of_bounds(r, self.dijkstra_results@[kk].pos);
                        if pi == ni {
                            assert(m0[pi] <= self.dijkstra_results@[kk].cost);
                        }
                    }
                    assert(open@[open@.len() - 1].idx == ni);
                    assert forall|i: int| #![trigger self.dijkstra_nodes@[i]] 0 <= i < len && self.dijkstra_nodes@[i].generation == gen
                        && self.dijkstra_nodes@[i].open implies exists|jj: int| 0 <= jj < open@.len() && #[trigger] open@[jj].idx == i by {
                        if i != ni {
                            assert(n0[i] == self.dijkstra_nodes@[i]);
                            let jj = choose|jj: int| 0 <= jj < oq.len() && #[trigger] oq[jj].idx == i;
                            assert(open@[jj] == oq[jj]);
                        }
                    }
                    assert forall|i: int| #![trigger self.dijkstra_nodes@[i]] 0 <= i < len && self.dijkstra_nodes@[i].generation == gen
                        implies cost_reached(pather, r, sources@, r.points_seq()[i], self.dijkstra_nodes@[i].g as int) by {
                        if i != ni {
                            assert(n0[i] == self.dijkstra_nodes@[i]);
                        }
                    }
                    assert forall|i: int| #[trigger] ans.dom().contains(i) implies 0 <= i < len && is_answer(pather, r.points_seq()[i], ans[i])
                        && self.dijkstra_nodes@[i].generation == gen by {
                        if i != ni {
                            assert(n0[i] == self.dijkstra_nodes@[i]);
                        }
                    }
                }
            }
            proof {
                lemma_closed_finish(r, self.dijkstra_nodes@, gen, ans, cst, ci as int, lim);
            }
        }
        proof {
            self.lemma_wf();
            assert forall|p: Point| #[trigger] self.spec_dijkstra_at(p) == UNREACHABLE
                || 0 <= self.spec_dijkstra_at(p) <= cap by {
                if r.spec_contains(p) {
                    lemma_index_of_bounds(r, p);
                    let ix = PathRange::index_of(r, p);
                    assert(self.dijkstra_nodes@[ix].g >= 0);
                    assert(self.dijkstra_nodes@[ix].generation <= gen);
                }
            }
            assert forall|jj: int| 0 <= jj < sources@.len() && r.spec_contains(#[trigger] sources@[jj])
                implies self.spec_dijkstra_at(sources@[jj]) == 0 by {
                lemma_index_of_bounds(r, sources@[jj]);
            }
            assert forall|i: int| 0 <= i < self.dijkstra_nodes@.len() && #[trigger] self.dijkstra_nodes@[i].generation == gen
                implies !self.dijkstra_nodes@[i].open by {
                if self.dijkstra_nodes@[i].open {
                    let jj = choose|jj: int| 0 <= jj < open@.len() && #[trigger] open@[jj].idx == i;
                }
            }
            lemma_dijkstra_done(self, pather, gen, ans, cst, sources@, max_cost as int);
        }
        self.dijkstra_results.as_slice()
    }

    /// The Dijkstra cost at `p` from the last `dijkstra_map` call;
    /// `UNREACHABLE` if `p` is outside the range or was not reached.
    pub fn dijkstra_at(&self, p: Point) -> (d: i32)
        requires
            self.wf(),
        ensures
            d == self.spec_dijkstra_at(p),
    {
        proof {
            self.lemma_wf();
        }
        match self.idx(p) {
            Some(i) => self.dijkstra_map[i],
            None => UNREACHABLE,
        }
    }
}

} // verus!
