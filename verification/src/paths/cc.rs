//! Connected-component labelling.
use vstd::prelude::*;

use crate::geom::{Point, Range};
use crate::paths::pathrange::{PathRange, count_eq, lemma_count_update, lemma_index_injective,
    lemma_index_of_bounds};
use crate::paths::bfs::{lemma_count_all, lemma_count_le};
use crate::paths::traits::{Pather, neighbor_list, is_answer};
use crate::paths::astar::is_walk;

verus! {

impl PathRange {
    /// The component labels of the last labelling, one per cell; -1 for an
    /// unlabelled cell.
    pub closed spec fn spec_cc_labels(&self) -> Seq<i32> {
        self.cc_labels@
    }

    /// The label of `p` from the last labelling, if it has one.
    pub open spec fn spec_cc_at(&self, p: Point) -> Option<usize> {
        if self.spec_range().spec_contains(p) && self.spec_cc_labels()[PathRange::index_of(
            self.spec_range(),
            p,
        )] >= 0 {
            Some(self.spec_cc_labels()[PathRange::index_of(self.spec_range(), p)] as usize)
        } else {
            None
        }
    }

    /// Whether the labels of the last `cc_map_all` call are explained by
    /// the neighbour lists `ans` and the component roots `roots`: `ans`
    /// holds, for exactly the cells of the range, lists that `pather` may
    /// give; each listed neighbour in the range of a cell carries a label no
    /// greater than the cell's; `roots[l]` carries label `l`; and every cell
    /// of the range carries a label below the number of roots and is reached
    /// from the root of its label.
    pub open spec fn cc_explained_by<P: Pather>(&self, pather: &P, ans: Map<Point, Seq<Point>>, roots: Seq<Point>) -> bool {
        let r = self.spec_range();
        &&& forall|q: Point| #[trigger] ans.dom().contains(q) ==> is_answer(pather, q, ans[q])
        &&& forall|q: Point| #[trigger] ans.dom().contains(q) <==> r.spec_contains(q)
        &&& forall|q: Point, x: Point| #[trigger] ans.dom().contains(q) && #[trigger] ans[q].contains(x) && r.spec_contains(x)
            ==> self.spec_cc_at(x) is Some && self.spec_cc_at(q) is Some && self.spec_cc_at(x)->0 <= self.spec_cc_at(q)->0
        &&& forall|l: int| 0 <= l < roots.len() ==> r.spec_contains(#[trigger] roots[l]) && self.spec_cc_at(roots[l])
            == Some(l as usize)
        &&& forall|q: Point| r.spec_contains(q) ==> (#[trigger] self.spec_cc_at(q) matches Some(l) && l < roots.len()
            && reaches(r, ans, roots[l as int], q))
    }

    fn reset_labels(&mut self)
        requires
            old(self).inv(),
        ensures
            final(self).inv(),
            final(self).rng == old(self).rng,
            forall|i: int| 0 <= i < final(self).cc_labels@.len() ==> final(self).cc_labels@[i] == -1,
            count_eq(final(self).cc_labels@, -1i32) == final(self).rng.spec_len(),
    {
        let len: usize = self.rng.len();
        let ghost r = self.rng;
        let mut i: usize = 0;
        while i < len
            invariant
                self.inv(),
                self.rng == r,
                len == r.spec_len(),
                i <= len,
                forall|j: int| 0 <= j < i ==> self.cc_labels@[j] == -1,
            decreases len - i,
        {
            self.cc_labels.set(i, -1);
            i = i + 1;
        }
        proof {
            lemma_count_all(self.cc_labels@, -1i32);
        }
    }

    /// Label every cell in the range with a connected-component id.
    ///
    /// Cells are visited in row-major order; each cell not yet labelled
    /// starts a new component, numbered from 0, flooded through the
    /// neighbours that `pather` gives. Afterwards every cell of the range
    /// has a label, below the number of cells; the labels are explained by
    /// the neighbour lists that `pather` gave and one root cell per label
    /// (see [`cc_explained_by`](Self::cc_explained_by)).
    #[verifier::spinoff_prover]
    #[verifier::rlimit(60)]
    pub fn cc_map_all<P: Pather>(&mut self, pather: &P)
        requires
            old(self).wf(),
        ensures
            final(self).wf(),
            final(self).spec_range() == old(self).spec_range(),
            forall|p: Point| #[trigger] final(self).spec_range().spec_contains(p)
                ==> (final(self).spec_cc_at(p) matches Some(l) && l < final(self).spec_range().spec_len()),
            exists|ans: Map<Point, Seq<Point>>, roots: Seq<Point>| #[trigger] final(self).cc_explained_by(pather, ans, roots),
    {
        proof {
            self.lemma_wf();
        }
        self.reset_labels();
        let len: usize = self.rng.len();
        let ghost r = self.rng;
        let mut label: i32 = 0;
        let ghost mut ans: Map<Point, Seq<Point>> = Map::empty();
        let ghost mut roots: Seq<Point> = Seq::empty();
        let ghost mut last: Point = r.min;
        proof {
            let labels = self.cc_labels@;
            assert forall|q: Point| r.spec_contains(q) implies #[trigger] lab(r, labels, q) == -1 by {
                lemma_index_of_bounds(r, q);
            }
            assert(cc_all_partial(pather, r, ans, roots, labels, seq![], last, 0));
        }
        let mut start: usize = 0;
        while start < len
            invariant
                self.inv(),
                self.rng == r,
                len == r.spec_len(),
                start <= len,
                0 <= label <= start,
                forall|j: int| 0 <= j < len ==> -1 <= #[trigger] self.cc_labels@[j] < label,
                forall|j: int| 0 <= j < start ==> #[trigger] self.cc_labels@[j] >= 0,
                roots.len() == label,
                cc_all_partial(pather, r, ans, roots, self.cc_labels@, seq![], last, 0),
                cc_all_closed(r, ans, self.cc_labels@),
            decreases len - start,
        {
            if self.cc_labels[start] >= 0 {
                start = start + 1;
                continue;
            }
            proof {
                lemma_count_update(self.cc_labels@, start as int, label, -1i32);
                lemma_count_le(self.cc_labels@, -1i32);
            }
            let sp = self.point(start);
            proof {
                lemma_cc_new_root(pather, r, ans, roots, self.cc_labels@, last, sp);
                roots = roots.push(sp);
            }
            self.cc_stack.clear();
            self.cc_stack.push(start);
            self.cc_labels.set(start, label);
            proof {
                assert(self.cc_stack@ =~= seq![start]);
            }
            while self.cc_stack.len() > 0
                invariant
                    self.inv(),
                    self.rng == r,
                    len == r.spec_len(),
                    start < len,
                    0 <= label <= start,
                    self.cc_labels@[start as int] == label,
                    forall|j: int| 0 <= j < len ==> -1 <= #[trigger] self.cc_labels@[j] <= label,
                    forall|j: int| 0 <= j < start ==> #[trigger] self.cc_labels@[j] >= 0,
                    forall|k: int| 0 <= k < self.cc_stack@.len() ==> #[trigger] self.cc_stack@[k] < len,
                    roots.len() == label + 1,
                    cc_all_partial(pather, r, ans, roots, self.cc_labels@, self.cc_stack@, last, 0),
                    cc_all_closed(r, ans, self.cc_labels@),
                ensures
                    self.cc_stack@.len() == 0,
                decreases 2 * count_eq(self.cc_labels@, -1i32) + self.cc_stack@.len(),
            {
                let ghost st0 = self.cc_stack@;
                let ci: usize = match self.cc_stack.pop() {
                    Some(c) => c,
                    None => {
                        break;
                    },
                };
                let cp = self.point(ci);
                let nbuf = neighbor_list(pather, cp);
                proof {
                    assert(call_ensures(neighbor_list::<P>, (pather, cp), nbuf));
                    assert(st0[st0.len() - 1] == ci);
                    lemma_cc_expand(pather, r, ans, roots, self.cc_labels@, st0, last, cp, nbuf@);
                    ans = ans.insert(cp, nbuf@);
                    last = cp;
                    assert(self.cc_stack@ == st0.drop_last());
                }
                let ghost c0 = count_eq(self.cc_labels@, -1i32);
                let ghost s0 = self.cc_stack@.len();
                let mut t: usize = 0;
                while t < nbuf.len()
                    invariant
                        self.inv(),
                        self.rng == r,
                        len == r.spec_len(),
                        start < len,
                        0 <= label <= start,
                        self.cc_labels@[start as int] == label,
                        forall|j: int| 0 <= j < len ==> -1 <= #[trigger] self.cc_labels@[j] <= label,
                        forall|j: int| 0 <= j < start ==> #[trigger] self.cc_labels@[j] >= 0,
                        forall|k: int| 0 <= k < self.cc_stack@.len() ==> #[trigger] self.cc_stack@[k]
                            < len,
                        t <= nbuf@.len(),
                        2 * count_eq(self.cc_labels@, -1i32) + self.cc_stack@.len() <= 2 * c0 + s0,
                        roots.len() == label + 1,
                        last == cp,
                        r.spec_contains(cp),
                        ans.dom().contains(cp),
                        ans[cp] == nbuf@,
                        lab(r, self.cc_labels@, cp) == label,
                        cc_all_partial(pather, r, ans, roots, self.cc_labels@, self.cc_stack@, cp, t as int),
                    decreases nbuf@.len() - t,
                {
                    let np = nbuf[t];
                    t = t + 1;
                    proof {
                        assert(ans[cp][t - 1] == np);
                    }
                    match self.idx(np) {
                        Some(ni) => {
                            if self.cc_labels[ni] < 0 {
                                proof {
                                    lemma_count_update(self.cc_labels@, ni as int, label, -1i32);
                                    lemma_count_le(self.cc_labels@, -1i32);
                                    lemma_cc_push(pather, r, ans, roots, self.cc_labels@, self.cc_stack@, cp, (t - 1) as int, ni, np);
                                    lemma_index_of_bounds(r, cp);
                                    if PathRange::index_of(r, cp) == ni as int {
                                        lemma_index_injective(r, cp, np);
                                    }
                                }
                                self.cc_labels.set(ni, label);
                                self.cc_stack.push(ni);
                            } else {
                                proof {
                                    lemma_cc_keep(pather, r, ans, roots, self.cc_labels@, self.cc_stack@, cp, (t - 1) as int);
                                }
                            }
                        },
                        None => {
                            proof {
                                lemma_cc_keep(pather, r, ans, roots, self.cc_labels@, self.cc_stack@, cp, (t - 1) as int);
                            }
                        },
                    }
                }
                proof {
                    lemma_cc_finish(pather, r, ans, roots, self.cc_labels@, self.cc_stack@, cp);
                }
            }
            proof {
                assert(self.cc_stack@ =~= seq![]);
            }
            label = label + 1;
            start = start + 1;
        }
        proof {
            self.lemma_wf();
            assert forall|p: Point| #[trigger] self.spec_range().spec_contains(p) implies (
            self.spec_cc_at(p) matches Some(l) && l < self.spec_range().spec_len()) by {
                lemma_index_of_bounds(r, p);
                assert(self.cc_labels@[PathRange::index_of(r, p)] >= 0);
            }
            lemma_cc_all_done(self, pather, ans, roots, last);
        }
    }

    /// Flood-fill from `p` and return the connected cells, `p` first.
    ///
    /// The labels are reset, and the cells reached get label 0; the result
    /// is empty if `p` is outside the range. Otherwise the result is the
    /// flood of `p` (see [`flood_of`]): exactly the cells reached from `p`
    /// along the neighbour lists that `pather` gave for them.
    #[verifier::spinoff_prover]
    #[verifier::rlimit(60)]
    pub fn cc_map<P: Pather>(&mut self, pather: &P, p: Point) -> (res: Vec<Point>)
        requires
            old(self).wf(),
        ensures
            final(self).wf(),
            final(self).spec_range() == old(self).spec_range(),
            !old(self).spec_range().spec_contains(p) ==> res@.len() == 0,
            old(self).spec_range().spec_contains(p) ==> res@.len() > 0 && res@[0] == p,
            forall|k: int| 0 <= k < res@.len() ==> final(self).spec_range().spec_contains(
                #[trigger] res@[k],
            ) && final(self).spec_cc_at(res@[k]) == Some(0usize),
            forall|q: Point| #[trigger] final(self).spec_cc_at(q) is Some ==> exists|k: int|
                0 <= k < res@.len() && res@[k] == q,
            forall|a: int, b: int| 0 <= a < b < res@.len() ==> #[trigger] res@[a] != #[trigger] res@[b],
            old(self).spec_range().spec_contains(p) ==> exists|ans: Map<Point, Seq<Point>>|
                flood_of(pather, old(self).spec_range(), ans, p, res@),
    {
        proof {
            self.lemma_wf();
        }
        self.reset_labels();
        let ghost r = self.rng;
        let len: usize = self.rng.len();
        let mut result: Vec<Point> = Vec::new();
        let si: usize = match self.idx(p) {
            Some(si) => si,
            None => {
                proof {
                    self.lemma_wf();
                    assert forall|q: Point| #[trigger] self.spec_cc_at(q) is Some implies exists|k: int|
                        0 <= k < result@.len() && result@[k] == q by {
                        lemma_index_of_bounds(r, q);
                    }
                }
                return result;
            },
        };
        self.cc_stack.clear();
        proof {
            lemma_count_update(self.cc_labels@, si as int, 0, -1i32);
            lemma_count_le(self.cc_labels@, -1i32);
        }
        self.cc_stack.push(si);
        self.cc_labels.set(si, 0);
        result.push(p);
        let ghost mut ans: Map<Point, Seq<Point>> = Map::empty();
        proof {
            assert(is_walk(r, ans, seq![p]));
            assert(seq![p].last() == p);
            assert(reaches(r, ans, p, result@[0]));
            assert(on_stack(self.cc_stack@, PathRange::index_of(r, result@[0]))) by {
                assert(self.cc_stack@[0] == si);
            }
            assert(self.cc_labels@[self.cc_stack@[0] as int] == 0);
        }
        proof {
            let l = self.cc_labels@;
            assert forall|j: int| 0 <= j < l.len() && #[trigger] l[j] == 0 implies exists|k: int|
                0 <= k < result@.len() && PathRange::index_of(r, result@[k]) == j by {
                assert(PathRange::index_of(r, result@[0]) == j);
            }
        }
        while self.cc_stack.len() > 0
            invariant
                self.inv(),
                self.rng == r,
                len == r.spec_len(),
                result@.len() > 0,
                result@[0] == p,
                cc_flood_inv(r, self.cc_labels@, result@),
                forall|k: int| 0 <= k < self.cc_stack@.len() ==> #[trigger] self.cc_stack@[k] < len,
                flood_walk_inv(pather, r, ans, p, result@, self.cc_labels@, self.cc_stack@),
            ensures
                self.cc_stack@.len() == 0,
            decreases 2 * count_eq(self.cc_labels@, -1i32) + self.cc_stack@.len(),
        {
            let ghost st0 = self.cc_stack@;
            let ci: usize = match self.cc_stack.pop() {
                Some(c) => c,
                None => {
                    break;
                },
            };
            let cp = self.point(ci);
            let nbuf = neighbor_list(pather, cp);
            proof {
                assert(call_ensures(neighbor_list::<P>, (pather, cp), nbuf));
                lemma_flood_expand(pather, r, ans, p, result@, self.cc_labels@, st0, cp, nbuf@);
                ans = ans.insert(cp, nbuf@);
            }
            let ghost c0 = count_eq(self.cc_labels@, -1i32);
            let ghost s0 = self.cc_stack@.len();
            let mut t: usize = 0;
            while t < nbuf.len()
                invariant
                    self.inv(),
                    self.rng == r,
                    len == r.spec_len(),
                    result@.len() > 0,
                    result@[0] == p,
                    cc_flood_inv(r, self.cc_labels@, result@),
                    forall|k: int| 0 <= k < self.cc_stack@.len() ==> #[trigger] self.cc_stack@[k] < len,
                    t <= nbuf@.len(),
                    2 * count_eq(self.cc_labels@, -1i32) + self.cc_stack@.len() <= 2 * c0 + s0,
                    ans.dom().contains(cp),
                    ans[cp] == nbuf@,
                    flood_walk_partial(pather, r, ans, p, result@, self.cc_labels@, self.cc_stack@, cp, t as int),
                decreases nbuf@.len() - t,
            {
                let np = nbuf[t];
                t = t + 1;
                match self.idx(np) {
                    Some(ni) => {
                        if self.cc_labels[ni] < 0 {
                            proof {
                                lemma_count_update(self.cc_labels@, ni as int, 0, -1i32);
                                lemma_count_le(self.cc_labels@, -1i32);
                                lemma_flood_push(r, self.cc_labels@, result@, ni, np);
                                lemma_flood_walk_push(pather, r, ans, p, result@, self.cc_labels@, self.cc_stack@, cp, (t - 1) as int, ni, np);
                            }
                            self.cc_labels.set(ni, 0);
                            self.cc_stack.push(ni);
                            result.push(np);
                        } else {
                            proof {
                                lemma_flood_walk_seen(pather, r, ans, p, result@, self.cc_labels@, self.cc_stack@, cp, (t - 1) as int, ni, np);
                            }
                        }
                    },
                    None => {
                        proof {
                            lemma_flood_walk_out(pather, r, ans, p, result@, self.cc_labels@, self.cc_stack@, cp, (t - 1) as int);
                        }
                    },
                }
            }
            proof {
                lemma_flood_partial_done(pather, r, ans, p, result@, self.cc_labels@, self.cc_stack@, cp);
            }
        }
        proof {
            self.lemma_wf();
            assert forall|q: Point| #[trigger] self.spec_cc_at(q) is Some implies exists|k: int|
                0 <= k < result@.len() && result@[k] == q by {
                lemma_index_of_bounds(r, q);
                let j = PathRange::index_of(r, q);
                assert(self.cc_labels@[j] == 0);
                let k = choose|k: int| 0 <= k < result@.len() && PathRange::index_of(r, result@[k]) == j;
                assert(r.spec_contains(result@[k]));
                lemma_index_injective(r, q, result@[k]);
            }
            assert forall|k: int| 0 <= k < result@.len() implies self.spec_range().spec_contains(
                #[trigger] result@[k],
            ) && self.spec_cc_at(result@[k]) == Some(0usize) by {
                lemma_index_of_bounds(r, result@[k]);
            }
            lemma_flood_done(pather, r, ans, p, result@, self.cc_labels@, self.cc_stack@);
        }
        result
    }

    /// The component label of `p`, or `None` if `p` is outside the range or
    /// unlabelled.
    pub fn cc_at(&self, p: Point) -> (l: Option<usize>)
        requires
            self.wf(),
        ensures
            l == self.spec_cc_at(p),
    {
        proof {
            self.lemma_wf();
        }
        let i: usize = match self.idx(p) {
            Some(i) => i,
            None => {
                return None;
            },
        };
        let label: i32 = self.cc_labels[i];
        if label < 0 {
            None
        } else {
            Some(label as usize)
        }
    }
}

/// Whether the index `i` is on the stack.
pub open spec fn on_stack(stack: Seq<usize>, i: int) -> bool {
    exists|j: int| 0 <= j < stack.len() && stack[j] as int == i
}

/// Whether `q` is reached from `p` by a walk of the range along `ans`.
pub open spec fn reaches(r: Range, ans: Map<Point, Seq<Point>>, p: Point, q: Point) -> bool {
    exists|w: Seq<Point>| #[trigger] is_walk(r, ans, w) && w[0] == p && w.last() == q
}

/// Whether `cells` is the flood of `p` along the neighbour lists `ans`:
/// `ans` holds, for exactly the cells, a list that `pather` may give, and
/// the cells are exactly the points reached from `p` along these lists.
pub open spec fn flood_of<P: Pather>(pather: &P, r: Range, ans: Map<Point, Seq<Point>>, p: Point, cells: Seq<Point>) -> bool {
    &&& forall|q: Point| #[trigger] ans.dom().contains(q) ==> is_answer(pather, q, ans[q])
    &&& forall|q: Point| #[trigger] ans.dom().contains(q) <==> cells.contains(q)
    &&& forall|q: Point| #![trigger cells.contains(q)] #![trigger reaches(r, ans, p, q)] cells.contains(q) <==> reaches(r, ans, p, q)
}

/// A walk stays one when a point without a list gets one.
pub proof fn lemma_walk_insert(r: Range, ans: Map<Point, Seq<Point>>, x: Point, s: Seq<Point>, w: Seq<Point>)
    requires
        !ans.dom().contains(x),
        is_walk(r, ans, w),
    ensures
        is_walk(r, ans.insert(x, s), w),
{
    let a2 = ans.insert(x, s);
    assert forall|i: int| 0 <= i < w.len() - 1 implies a2.dom().contains(#[trigger] w[i]) && a2[w[i]].contains(w[i + 1]) by {
        assert(ans.dom().contains(w[i]));
        assert(w[i] != x);
    }
}

/// A walk goes on to a listed neighbour of its end.
pub proof fn lemma_walk_push(r: Range, ans: Map<Point, Seq<Point>>, w: Seq<Point>, y: Point)
    requires
        is_walk(r, ans, w),
        ans.dom().contains(w.last()),
        ans[w.last()].contains(y),
        r.spec_contains(y),
    ensures
        is_walk(r, ans, w.push(y)),
        w.push(y)[0] == w[0],
        w.push(y).last() == y,
{
    let w2 = w.push(y);
    assert forall|i: int| 0 <= i < w2.len() implies r.spec_contains(#[trigger] w2[i]) by {
        if i < w.len() {
            assert(w2[i] == w[i]);
        }
    }
    assert forall|i: int| 0 <= i < w2.len() - 1 implies ans.dom().contains(#[trigger] w2[i]) && ans[w2[i]].contains(w2[i + 1]) by {
        assert(w2[i] == w[i]);
        if i < w.len() - 1 {
            assert(w2[i + 1] == w[i + 1]);
        }
    }
}

/// A set of cells that holds `p` and every listed neighbour in the range
/// of its listed points holds the end of every walk from `p`.
pub proof fn lemma_walk_closed(r: Range, ans: Map<Point, Seq<Point>>, cells: Seq<Point>, p: Point, w: Seq<Point>)
    requires
        forall|q: Point, x: Point| #[trigger] ans.dom().contains(q) && #[trigger] ans[q].contains(x) && r.spec_contains(x)
            ==> cells.contains(x),
        cells.contains(p),
        is_walk(r, ans, w),
        w[0] == p,
    ensures
        cells.contains(w.last()),
    decreases w.len(),
{
    if w.len() > 1 {
        let w2 = w.drop_last();
        assert forall|i: int| 0 <= i < w2.len() implies r.spec_contains(#[trigger] w2[i]) by {
            assert(w2[i] == w[i]);
        }
        assert forall|i: int| 0 <= i < w2.len() - 1 implies ans.dom().contains(#[trigger] w2[i]) && ans[w2[i]].contains(w2[i + 1]) by {
            assert(w2[i] == w[i] && w2[i + 1] == w[i + 1]);
        }
        lemma_walk_closed(r, ans, cells, p, w2);
        let n = w.len();
        assert(ans.dom().contains(w[n - 2]) && ans[w[n - 2]].contains(w[n - 1]));
        assert(r.spec_contains(w[n - 1]));
    }
}

/// The flood's bookkeeping while the stack is worked off: the listed
/// points are cells off the stack, with lists that `pather` may give; each
/// cell is listed or on the stack; each listed neighbour in the range of a
/// listed point other than `cur` is a cell, and so is each of the first
/// `upto` of `cur`; each cell is reached from `p`; the stack holds distinct
/// labelled indices.
pub open spec fn flood_walk_partial<P: Pather>(
    pather: &P,
    r: Range,
    ans: Map<Point, Seq<Point>>,
    p: Point,
    result: Seq<Point>,
    labels: Seq<i32>,
    stack: Seq<usize>,
    cur: Point,
    upto: int,
) -> bool {
    &&& forall|q: Point| #[trigger] ans.dom().contains(q) ==> is_answer(pather, q, ans[q]) && result.contains(q)
        && !on_stack(stack, PathRange::index_of(r, q))
    &&& forall|k: int| 0 <= k < result.len() ==> ans.dom().contains(#[trigger] result[k]) || on_stack(stack, PathRange::index_of(r, result[k]))
    &&& forall|q: Point, x: Point| #[trigger] ans.dom().contains(q) && #[trigger] ans[q].contains(x) && r.spec_contains(x)
        && q != cur ==> result.contains(x)
    &&& ans.dom().contains(cur) ==> upto <= ans[cur].len() && forall|j: int| 0 <= j < upto && r.spec_contains(#[trigger] ans[cur][j])
        ==> result.contains(ans[cur][j])
    &&& forall|k: int| 0 <= k < result.len() ==> reaches(r, ans, p, #[trigger] result[k])
    &&& forall|j: int| 0 <= j < stack.len() ==> labels[#[trigger] stack[j] as int] == 0
    &&& forall|a: int, b: int| 0 <= a < b < stack.len() ==> #[trigger] stack[a] != #[trigger] stack[b]
}

/// The flood's bookkeeping between two expansions.
pub open spec fn flood_walk_inv<P: Pather>(
    pather: &P,
    r: Range,
    ans: Map<Point, Seq<Point>>,
    p: Point,
    result: Seq<Point>,
    labels: Seq<i32>,
    stack: Seq<usize>,
) -> bool {
    &&& flood_walk_partial(pather, r, ans, p, result, labels, stack, p, 0)
    &&& ans.dom().contains(p) ==> forall|x: Point| #[trigger] ans[p].contains(x) && r.spec_contains(x) ==> result.contains(x)
}

/// Popping `cur` off the stack and giving it its list starts its
/// expansion.
proof fn lemma_flood_expand<P: Pather>(
    pather: &P,
    r: Range,
    ans: Map<Point, Seq<Point>>,
    p: Point,
    result: Seq<Point>,
    labels: Seq<i32>,
    stack: Seq<usize>,
    cur: Point,
    s: Seq<Point>,
)
    requires
        flood_walk_inv(pather, r, ans, p, result, labels, stack),
        cc_flood_inv(r, labels, result),
        stack.len() > 0,
        r.spec_contains(cur),
        PathRange::index_of(r, cur) == stack.last(),
        is_answer(pather, cur, s),
    ensures
        flood_walk_partial(pather, r, ans.insert(cur, s), p, result, labels, stack.drop_last(), cur, 0),
{
    let a2 = ans.insert(cur, s);
    let st2 = stack.drop_last();
    let ci = stack.last();
    lemma_index_of_bounds(r, cur);
    assert(stack[stack.len() - 1] == ci);
    assert(!ans.dom().contains(cur)) by {
        if ans.dom().contains(cur) {
            assert(stack[stack.len() - 1] as int == PathRange::index_of(r, cur));
        }
    }
    assert(labels[ci as int] == 0);
    let kc = choose|k: int| 0 <= k < result.len() && PathRange::index_of(r, result[k]) == ci as int;
    lemma_index_injective(r, result[kc], cur);
    assert(result.contains(cur));
    assert forall|q: Point| #[trigger] a2.dom().contains(q) implies is_answer(pather, q, a2[q]) && result.contains(q)
        && !on_stack(st2, PathRange::index_of(r, q)) by {
        if q != cur {
            if on_stack(st2, PathRange::index_of(r, q)) {
                let j = choose|j: int| 0 <= j < st2.len() && st2[j] as int == PathRange::index_of(r, q);
                assert(stack[j] == st2[j]);
            }
        } else {
            if on_stack(st2, PathRange::index_of(r, q)) {
                let j = choose|j: int| 0 <= j < st2.len() && st2[j] as int == PathRange::index_of(r, q);
                assert(stack[j] == st2[j]);
                assert(stack[j] != stack[stack.len() - 1]);
            }
        }
    }
    assert forall|k: int| 0 <= k < result.len() implies a2.dom().contains(#[trigger] result[k]) || on_stack(st2, PathRange::index_of(r, result[k])) by {
        if !ans.dom().contains(result[k]) {
            let j = choose|j: int| 0 <= j < stack.len() && stack[j] as int == PathRange::index_of(r, result[k]);
            if j == stack.len() - 1 {
                lemma_index_of_bounds(r, result[k]);
                lemma_index_injective(r, result[k], cur);
            } else {
                assert(st2[j] == stack[j]);
            }
        }
    }
    assert forall|q: Point, x: Point| #[trigger] a2.dom().contains(q) && #[trigger] a2[q].contains(x) && r.spec_contains(x)
        && q != cur implies result.contains(x) by {
        assert(ans.dom().contains(q) && ans[q] == a2[q]);
        if q == p {
        } else {
        }
    }
    assert forall|k: int| 0 <= k < result.len() implies reaches(r, a2, p, #[trigger] result[k]) by {
        assert(reaches(r, ans, p, result[k]));
        let w = choose|w: Seq<Point>| #[trigger] is_walk(r, ans, w) && w[0] == p && w.last() == result[k];
        lemma_walk_insert(r, ans, cur, s, w);
    }
    assert forall|j: int| 0 <= j < st2.len() implies labels[#[trigger] st2[j] as int] == 0 by {
        assert(st2[j] == stack[j]);
    }
    assert forall|a: int, b: int| 0 <= a < b < st2.len() implies #[trigger] st2[a] != #[trigger] st2[b] by {
        assert(st2[a] == stack[a] && st2[b] == stack[b]);
    }
}

/// Pushing a fresh cell, a listed neighbour of `cur`, extends the
/// expansion by one entry.
proof fn lemma_flood_walk_push<P: Pather>(
    pather: &P,
    r: Range,
    ans: Map<Point, Seq<Point>>,
    p: Point,
    result: Seq<Point>,
    labels: Seq<i32>,
    stack: Seq<usize>,
    cur: Point,
    t: int,
    ni: usize,
    np: Point,
)
    requires
        flood_walk_partial(pather, r, ans, p, result, labels, stack, cur, t),
        cc_flood_inv(r, labels, result),
        ans.dom().contains(cur),
        0 <= t < ans[cur].len(),
        ans[cur][t] == np,
        r.spec_contains(np),
        ni as int == PathRange::index_of(r, np),
        ni < labels.len(),
        labels[ni as int] < 0,
        forall|j: int| 0 <= j < stack.len() ==> #[trigger] stack[j] < labels.len(),
    ensures
        flood_walk_partial(pather, r, ans, p, result.push(np), labels.update(ni as int, 0), stack.push(ni), cur, t + 1),
{
    let res2 = result.push(np);
    let l2 = labels.update(ni as int, 0);
    let st2 = stack.push(ni);
    assert(!result.contains(np)) by {
        if result.contains(np) {
            let k = choose|k: int| 0 <= k < result.len() && result[k] == np;
        }
    }
    assert forall|q: Point| #[trigger] ans.dom().contains(q) implies is_answer(pather, q, ans[q]) && res2.contains(q)
        && !on_stack(st2, PathRange::index_of(r, q)) by {
        let k = choose|k: int| 0 <= k < result.len() && result[k] == q;
        assert(res2[k] == q);
        assert(q != np);
        lemma_index_of_bounds(r, q);
        if PathRange::index_of(r, q) == ni as int {
            lemma_index_injective(r, q, np);
        }
        if on_stack(st2, PathRange::index_of(r, q)) {
            let j = choose|j: int| 0 <= j < st2.len() && st2[j] as int == PathRange::index_of(r, q);
            if j < stack.len() {
                assert(stack[j] == st2[j]);
            }
        }
    }
    assert forall|k: int| 0 <= k < res2.len() implies ans.dom().contains(#[trigger] res2[k]) || on_stack(st2, PathRange::index_of(r, res2[k])) by {
        if k < result.len() {
            assert(res2[k] == result[k]);
            if !ans.dom().contains(result[k]) {
                let j = choose|j: int| 0 <= j < stack.len() && stack[j] as int == PathRange::index_of(r, result[k]);
                assert(st2[j] == stack[j]);
            }
        } else {
            assert(st2[stack.len() as int] == ni);
        }
    }
    assert forall|q: Point, x: Point| #[trigger] ans.dom().contains(q) && #[trigger] ans[q].contains(x) && r.spec_contains(x)
        && q != cur implies res2.contains(x) by {
        assert(result.contains(x));
        let k = choose|k: int| 0 <= k < result.len() && result[k] == x;
        assert(res2[k] == x);
    }
    assert forall|j: int| 0 <= j < t + 1 && r.spec_contains(#[trigger] ans[cur][j]) implies res2.contains(ans[cur][j]) by {
        if j < t {
            let k = choose|k: int| 0 <= k < result.len() && result[k] == ans[cur][j];
            assert(res2[k] == ans[cur][j]);
        } else {
            assert(res2[result.len() as int] == np);
        }
    }
    assert(result.contains(cur));
    let kc = choose|k: int| 0 <= k < result.len() && result[k] == cur;
    assert(reaches(r, ans, p, result[kc]));
    let wc = choose|w: Seq<Point>| #[trigger] is_walk(r, ans, w) && w[0] == p && w.last() == cur;
    assert(ans[cur].contains(np)) by {
        assert(ans[cur][t] == np);
    }
    lemma_walk_push(r, ans, wc, np);
    assert forall|k: int| 0 <= k < res2.len() implies reaches(r, ans, p, #[trigger] res2[k]) by {
        if k < result.len() {
            assert(res2[k] == result[k]);
        } else {
            assert(is_walk(r, ans, wc.push(np)));
        }
    }
    assert forall|j: int| 0 <= j < st2.len() implies l2[#[trigger] st2[j] as int] == 0 by {
        if j < stack.len() {
            assert(st2[j] == stack[j]);
        }
    }
    assert forall|a: int, b: int| 0 <= a < b < st2.len() implies #[trigger] st2[a] != #[trigger] st2[b] by {
        if b == stack.len() {
            assert(st2[a] == stack[a]);
            assert(labels[stack[a] as int] == 0);
        } else {
            assert(st2[a] == stack[a] && st2[b] == stack[b]);
        }
    }
}

/// A listed neighbour of `cur` that is already a cell extends the
/// expansion by one entry.
proof fn lemma_flood_walk_seen<P: Pather>(
    pather: &P,
    r: Range,
    ans: Map<Point, Seq<Point>>,
    p: Point,
    result: Seq<Point>,
    labels: Seq<i32>,
    stack: Seq<usize>,
    cur: Point,
    t: int,
    ni: usize,
    np: Point,
)
    requires
        flood_walk_partial(pather, r, ans, p, result, labels, stack, cur, t),
        cc_flood_inv(r, labels, result),
        ans.dom().contains(cur),
        0 <= t < ans[cur].len(),
        ans[cur][t] == np,
        r.spec_contains(np),
        ni as int == PathRange::index_of(r, np),
        ni < labels.len(),
        labels[ni as int] >= 0,
    ensures
        flood_walk_partial(pather, r, ans, p, result, labels, stack, cur, t + 1),
{
    assert(labels[ni as int] == 0);
    let k = choose|k: int| 0 <= k < result.len() && PathRange::index_of(r, result[k]) == ni as int;
    lemma_index_injective(r, result[k], np);
    assert(result.contains(np));
}

/// A listed neighbour of `cur` out of the range extends the expansion by
/// one entry.
proof fn lemma_flood_walk_out<P: Pather>(
    pather: &P,
    r: Range,
    ans: Map<Point, Seq<Point>>,
    p: Point,
    result: Seq<Point>,
    labels: Seq<i32>,
    stack: Seq<usize>,
    cur: Point,
    t: int,
)
    requires
        flood_walk_partial(pather, r, ans, p, result, labels, stack, cur, t),
        ans.dom().contains(cur),
        0 <= t < ans[cur].len(),
        !r.spec_contains(ans[cur][t]),
    ensures
        flood_walk_partial(pather, r, ans, p, result, labels, stack, cur, t + 1),
{
}

/// Once `cur` is expanded in full, the flood's bookkeeping holds again.
proof fn lemma_flood_partial_done<P: Pather>(
    pather: &P,
    r: Range,
    ans: Map<Point, Seq<Point>>,
    p: Point,
    result: Seq<Point>,
    labels: Seq<i32>,
    stack: Seq<usize>,
    cur: Point,
)
    requires
        flood_walk_partial(pather, r, ans, p, result, labels, stack, cur, ans[cur].len() as int),
        ans.dom().contains(cur),
    ensures
        flood_walk_inv(pather, r, ans, p, result, labels, stack),
{
    assert forall|q: Point, x: Point| #[trigger] ans.dom().contains(q) && #[trigger] ans[q].contains(x) && r.spec_contains(x)
        implies result.contains(x) by {
        if q == cur {
            let j = choose|j: int| 0 <= j < ans[cur].len() && ans[cur][j] == x;
        }
    }
}

/// With the stack worked off, the cells are the flood of `p`.
proof fn lemma_flood_done<P: Pather>(
    pather: &P,
    r: Range,
    ans: Map<Point, Seq<Point>>,
    p: Point,
    result: Seq<Point>,
    labels: Seq<i32>,
    stack: Seq<usize>,
)
    requires
        flood_walk_inv(pather, r, ans, p, result, labels, stack),
        stack.len() == 0,
        result.len() > 0,
        result[0] == p,
    ensures
        flood_of(pather, r, ans, p, result),
{
    assert forall|q: Point, x: Point| #[trigger] ans.dom().contains(q) && #[trigger] ans[q].contains(x) && r.spec_contains(x)
        implies result.contains(x) by {
        if q == p {
        }
    }
    assert forall|q: Point| #[trigger] ans.dom().contains(q) <==> result.contains(q) by {
        if result.contains(q) {
            let k = choose|k: int| 0 <= k < result.len() && result[k] == q;
            assert(ans.dom().contains(result[k]) || on_stack(stack, PathRange::index_of(r, result[k])));
        }
    }
    assert(result.contains(p)) by {
        assert(result[0] == p);
    }
    assert forall|q: Point| #![trigger result.contains(q)] #![trigger reaches(r, ans, p, q)] result.contains(q) <==> reaches(r, ans, p, q) by {
        if result.contains(q) {
            let k = choose|k: int| 0 <= k < result.len() && result[k] == q;
            assert(reaches(r, ans, p, result[k]));
        }
        if reaches(r, ans, p, q) {
            let w = choose|w: Seq<Point>| #[trigger] is_walk(r, ans, w) && w[0] == p && w.last() == q;
            lemma_walk_closed(r, ans, result, p, w);
        }
    }
}

/// The label of `q` in `labels`.
pub open spec fn lab(r: Range, labels: Seq<i32>, q: Point) -> int {
    labels[PathRange::index_of(r, q)] as int
}

/// Whether each listed neighbour in the range of each listed point carries
/// a label no greater than the point's.
pub open spec fn cc_all_closed(r: Range, ans: Map<Point, Seq<Point>>, labels: Seq<i32>) -> bool {
    forall|q: Point, x: Point| #[trigger] ans.dom().contains(q) && #[trigger] ans[q].contains(x) && r.spec_contains(x)
        ==> 0 <= lab(r, labels, x) <= lab(r, labels, q)
}

/// The labelling's bookkeeping: the listed points are labelled cells off
/// the stack, with lists that `pather` may give; each labelled cell is
/// listed or on the stack; listed neighbours of listed points other than
/// `cur`, and the first `upto` of `cur`, carry no greater label; each
/// labelled cell is reached from the root of its label, which carries it;
/// the stack holds distinct cells of the newest label.
pub open spec fn cc_all_partial<P: Pather>(
    pather: &P,
    r: Range,
    ans: Map<Point, Seq<Point>>,
    roots: Seq<Point>,
    labels: Seq<i32>,
    stack: Seq<usize>,
    cur: Point,
    upto: int,
) -> bool {
    &&& labels.len() == r.spec_len()
    &&& forall|q: Point| #[trigger] ans.dom().contains(q) ==> is_answer(pather, q, ans[q]) && r.spec_contains(q) && lab(r, labels, q) >= 0
        && !on_stack(stack, PathRange::index_of(r, q))
    &&& forall|q: Point| r.spec_contains(q) && #[trigger] lab(r, labels, q) >= 0 ==> ans.dom().contains(q) || on_stack(
        stack,
        PathRange::index_of(r, q),
    )
    &&& forall|q: Point, x: Point| #[trigger] ans.dom().contains(q) && #[trigger] ans[q].contains(x) && r.spec_contains(x)
        && q != cur ==> 0 <= lab(r, labels, x) <= lab(r, labels, q)
    &&& ans.dom().contains(cur) ==> upto <= ans[cur].len() && forall|j: int| 0 <= j < upto && r.spec_contains(#[trigger] ans[cur][j])
        ==> 0 <= lab(r, labels, ans[cur][j]) <= lab(r, labels, cur)
    &&& forall|q: Point| r.spec_contains(q) && #[trigger] lab(r, labels, q) >= 0 ==> lab(r, labels, q) < roots.len() && reaches(
        r,
        ans,
        roots[lab(r, labels, q)],
        q,
    )
    &&& forall|l: int| 0 <= l < roots.len() ==> r.spec_contains(#[trigger] roots[l]) && lab(r, labels, roots[l]) == l
    &&& forall|j: int| 0 <= j < stack.len() ==> #[trigger] stack[j] < labels.len() && labels[stack[j] as int] == roots.len() - 1
    &&& forall|a: int, b: int| 0 <= a < b < stack.len() ==> #[trigger] stack[a] != #[trigger] stack[b]
    &&& forall|j: int| 0 <= j < labels.len() ==> #[trigger] labels[j] < roots.len()
}

/// Starting a new component at an unlabelled cell.
proof fn lemma_cc_new_root<P: Pather>(
    pather: &P,
    r: Range,
    ans: Map<Point, Seq<Point>>,
    roots: Seq<Point>,
    labels: Seq<i32>,
    cur: Point,
    sp: Point,
)
    requires
        cc_all_partial(pather, r, ans, roots, labels, seq![], cur, 0),
        cc_all_closed(r, ans, labels),
        r.spec_contains(sp),
        labels[PathRange::index_of(r, sp)] == -1,
        roots.len() < i32::MAX,
        r.spec_len() <= usize::MAX,
    ensures
        cc_all_partial(
            pather,
            r,
            ans,
            roots.push(sp),
            labels.update(PathRange::index_of(r, sp), roots.len() as i32),
            seq![PathRange::index_of(r, sp) as usize],
            cur,
            0,
        ),
        cc_all_closed(r, ans, labels.update(PathRange::index_of(r, sp), roots.len() as i32)),
{
    let si = PathRange::index_of(r, sp);
    lemma_index_of_bounds(r, sp);
    let l2 = labels.update(si, roots.len() as i32);
    let ro2 = roots.push(sp);
    let st2 = seq![si as usize];
    assert forall|q: Point| r.spec_contains(q) && lab(r, labels, q) >= 0 implies lab(r, l2, q) == lab(r, labels, q) by {
        lemma_index_of_bounds(r, q);
    }
    assert forall|q: Point| #[trigger] ans.dom().contains(q) implies is_answer(pather, q, ans[q]) && r.spec_contains(q)
        && lab(r, l2, q) >= 0 && !on_stack(st2, PathRange::index_of(r, q)) by {
        assert(lab(r, labels, q) >= 0);
        assert(lab(r, l2, q) == lab(r, labels, q));
        if on_stack(st2, PathRange::index_of(r, q)) {
            assert(st2[0] as int == si);
        }
    }
    assert forall|q: Point| r.spec_contains(q) && #[trigger] lab(r, l2, q) >= 0 implies ans.dom().contains(q) || on_stack(
        st2,
        PathRange::index_of(r, q),
    ) by {
        lemma_index_of_bounds(r, q);
        if PathRange::index_of(r, q) == si {
            assert(st2[0] as int == si);
        } else {
            assert(lab(r, labels, q) >= 0);
            if on_stack(seq![], PathRange::index_of(r, q)) {
                let j = choose|j: int| 0 <= j < Seq::<usize>::empty().len() && Seq::<usize>::empty()[j] as int == PathRange::index_of(r, q);
            }
        }
    }
    assert forall|q: Point, x: Point| #[trigger] ans.dom().contains(q) && #[trigger] ans[q].contains(x) && r.spec_contains(x)
        implies 0 <= lab(r, l2, x) <= lab(r, l2, q) by {
        assert(0 <= lab(r, labels, x) <= lab(r, labels, q));
        assert(lab(r, l2, x) == lab(r, labels, x));
        assert(lab(r, l2, q) == lab(r, labels, q));
    }
    assert forall|q: Point| r.spec_contains(q) && #[trigger] lab(r, l2, q) >= 0 implies lab(r, l2, q) < ro2.len() && reaches(
        r,
        ans,
        ro2[lab(r, l2, q)],
        q,
    ) by {
        lemma_index_of_bounds(r, q);
        if PathRange::index_of(r, q) == si {
            lemma_index_injective(r, q, sp);
            assert(is_walk(r, ans, seq![sp]));
            assert(seq![sp].last() == sp);
        } else {
            assert(lab(r, labels, q) >= 0);
            assert(ro2[lab(r, labels, q)] == roots[lab(r, labels, q)]);
        }
    }
    assert forall|l: int| 0 <= l < ro2.len() implies r.spec_contains(#[trigger] ro2[l]) && lab(r, l2, ro2[l]) == l by {
        if l < roots.len() {
            assert(ro2[l] == roots[l]);
        }
    }
    assert forall|j: int| 0 <= j < labels.len() implies #[trigger] l2[j] < ro2.len() by {}
}

/// Popping `cur` off the stack and giving it its list starts its
/// expansion.
proof fn lemma_cc_expand<P: Pather>(
    pather: &P,
    r: Range,
    ans: Map<Point, Seq<Point>>,
    roots: Seq<Point>,
    labels: Seq<i32>,
    stack: Seq<usize>,
    prev: Point,
    cur: Point,
    s: Seq<Point>,
)
    requires
        cc_all_partial(pather, r, ans, roots, labels, stack, prev, 0),
        cc_all_closed(r, ans, labels),
        stack.len() > 0,
        roots.len() >= 1,
        r.spec_contains(cur),
        PathRange::index_of(r, cur) == stack.last(),
        is_answer(pather, cur, s),
    ensures
        cc_all_partial(pather, r, ans.insert(cur, s), roots, labels, stack.drop_last(), cur, 0),
{
    let a2 = ans.insert(cur, s);
    let st2 = stack.drop_last();
    lemma_index_of_bounds(r, cur);
    assert(!ans.dom().contains(cur)) by {
        if ans.dom().contains(cur) {
            assert(stack[stack.len() - 1] as int == PathRange::index_of(r, cur));
        }
    }
    assert(labels[stack[stack.len() - 1] as int] == roots.len() - 1);
    assert forall|q: Point| #[trigger] a2.dom().contains(q) implies is_answer(pather, q, a2[q]) && r.spec_contains(q)
        && lab(r, labels, q) >= 0 && !on_stack(st2, PathRange::index_of(r, q)) by {
        if q == cur {
            assert(lab(r, labels, cur) == roots.len() - 1);
        } else {
            assert(ans.dom().contains(q) && a2[q] == ans[q]);
        }
        if on_stack(st2, PathRange::index_of(r, q)) {
            let j = choose|j: int| 0 <= j < st2.len() && st2[j] as int == PathRange::index_of(r, q);
            assert(stack[j] == st2[j]);
            if q == cur {
                assert(stack[j] != stack[stack.len() - 1]);
            } else {
                assert(on_stack(stack, PathRange::index_of(r, q)));
            }
        }
    }
    assert forall|q: Point| r.spec_contains(q) && #[trigger] lab(r, labels, q) >= 0 implies a2.dom().contains(q) || on_stack(
        st2,
        PathRange::index_of(r, q),
    ) by {
        if !ans.dom().contains(q) {
            let j = choose|j: int| 0 <= j < stack.len() && stack[j] as int == PathRange::index_of(r, q);
            if j == stack.len() - 1 {
                lemma_index_of_bounds(r, q);
                lemma_index_injective(r, q, cur);
            } else {
                assert(st2[j] == stack[j]);
            }
        }
    }
    assert forall|q: Point, x: Point| #[trigger] a2.dom().contains(q) && #[trigger] a2[q].contains(x) && r.spec_contains(x)
        && q != cur implies 0 <= lab(r, labels, x) <= lab(r, labels, q) by {
        assert(ans.dom().contains(q) && ans[q] == a2[q]);
    }
    assert forall|q: Point| r.spec_contains(q) && #[trigger] lab(r, labels, q) >= 0 implies lab(r, labels, q) < roots.len() && reaches(
        r,
        a2,
        roots[lab(r, labels, q)],
        q,
    ) by {
        let w = choose|w: Seq<Point>| #[trigger] is_walk(r, ans, w) && w[0] == roots[lab(r, labels, q)] && w.last() == q;
        lemma_walk_insert(r, ans, cur, s, w);
    }
    assert forall|j: int| 0 <= j < st2.len() implies #[trigger] st2[j] < labels.len() && labels[st2[j] as int] == roots.len() - 1 by {
        assert(st2[j] == stack[j]);
    }
    assert forall|a: int, b: int| 0 <= a < b < st2.len() implies #[trigger] st2[a] != #[trigger] st2[b] by {
        assert(st2[a] == stack[a] && st2[b] == stack[b]);
    }
}

/// Labelling a fresh listed neighbour of `cur` with the newest label and
/// pushing it extends the expansion by one entry.
proof fn lemma_cc_push<P: Pather>(
    pather: &P,
    r: Range,
    ans: Map<Point, Seq<Point>>,
    roots: Seq<Point>,
    labels: Seq<i32>,
    stack: Seq<usize>,
    cur: Point,
    t: int,
    ni: usize,
    np: Point,
)
    requires
        cc_all_partial(pather, r, ans, roots, labels, stack, cur, t),
        ans.dom().contains(cur),
        lab(r, labels, cur) == roots.len() - 1,
        0 <= t < ans[cur].len(),
        ans[cur][t] == np,
        r.spec_contains(np),
        ni as int == PathRange::index_of(r, np),
        labels[ni as int] < 0,
        roots.len() >= 1,
        roots.len() - 1 <= i32::MAX,
    ensures
        cc_all_partial(pather, r, ans, roots, labels.update(ni as int, (roots.len() - 1) as i32), stack.push(ni), cur, t + 1),
{
    let lb = (roots.len() - 1) as i32;
    let l2 = labels.update(ni as int, lb);
    let st2 = stack.push(ni);
    lemma_index_of_bounds(r, np);
    assert forall|q: Point| r.spec_contains(q) && lab(r, labels, q) >= 0 implies lab(r, l2, q) == lab(r, labels, q)
        && PathRange::index_of(r, q) != ni as int by {
        lemma_index_of_bounds(r, q);
    }
    assert forall|q: Point| #[trigger] ans.dom().contains(q) implies is_answer(pather, q, ans[q]) && r.spec_contains(q)
        && lab(r, l2, q) >= 0 && !on_stack(st2, PathRange::index_of(r, q)) by {
        assert(lab(r, labels, q) >= 0);
        if on_stack(st2, PathRange::index_of(r, q)) {
            let j = choose|j: int| 0 <= j < st2.len() && st2[j] as int == PathRange::index_of(r, q);
            if j < stack.len() {
                assert(stack[j] == st2[j]);
            }
        }
    }
    assert forall|q: Point| r.spec_contains(q) && #[trigger] lab(r, l2, q) >= 0 implies ans.dom().contains(q) || on_stack(
        st2,
        PathRange::index_of(r, q),
    ) by {
        lemma_index_of_bounds(r, q);
        if PathRange::index_of(r, q) == ni as int {
            assert(st2[stack.len() as int] == ni);
        } else {
            assert(lab(r, labels, q) >= 0);
            if !ans.dom().contains(q) {
                let j = choose|j: int| 0 <= j < stack.len() && stack[j] as int == PathRange::index_of(r, q);
                assert(st2[j] == stack[j]);
            }
        }
    }
    assert forall|q: Point, x: Point| #[trigger] ans.dom().contains(q) && #[trigger] ans[q].contains(x) && r.spec_contains(x)
        && q != cur implies 0 <= lab(r, l2, x) <= lab(r, l2, q) by {
        assert(0 <= lab(r, labels, x) <= lab(r, labels, q));
    }
    assert(lab(r, l2, cur) == lab(r, labels, cur));
    assert forall|j: int| 0 <= j < t + 1 && r.spec_contains(#[trigger] ans[cur][j]) implies 0 <= lab(r, l2, ans[cur][j])
        <= lab(r, l2, cur) by {
        if j < t {
            assert(0 <= lab(r, labels, ans[cur][j]));
        } else {
            assert(ans[cur][j] == np);
        }
    }
    let wc = choose|w: Seq<Point>| #[trigger] is_walk(r, ans, w) && w[0] == roots[lab(r, labels, cur)] && w.last() == cur;
    assert(ans[cur].contains(np)) by {
        assert(ans[cur][t] == np);
    }
    lemma_walk_push(r, ans, wc, np);
    assert forall|q: Point| r.spec_contains(q) && #[trigger] lab(r, l2, q) >= 0 implies lab(r, l2, q) < roots.len() && reaches(
        r,
        ans,
        roots[lab(r, l2, q)],
        q,
    ) by {
        lemma_index_of_bounds(r, q);
        if PathRange::index_of(r, q) == ni as int {
            lemma_index_injective(r, q, np);
            assert(is_walk(r, ans, wc.push(np)));
        } else {
            assert(lab(r, labels, q) >= 0);
        }
    }
    assert forall|l: int| 0 <= l < roots.len() implies r.spec_contains(#[trigger] roots[l]) && lab(r, l2, roots[l]) == l by {
        assert(lab(r, labels, roots[l]) == l);
    }
    assert forall|j: int| 0 <= j < st2.len() implies #[trigger] st2[j] < l2.len() && l2[st2[j] as int] == roots.len() - 1 by {
        if j < stack.len() {
            assert(st2[j] == stack[j]);
        }
    }
    assert forall|a: int, b: int| 0 <= a < b < st2.len() implies #[trigger] st2[a] != #[trigger] st2[b] by {
        if b == stack.len() {
            assert(st2[a] == stack[a]);
        } else {
            assert(st2[a] == stack[a] && st2[b] == stack[b]);
        }
    }
    assert forall|j: int| 0 <= j < l2.len() implies #[trigger] l2[j] < roots.len() by {}
}

/// A listed neighbour of `cur` that is already labelled, or one out of the
/// range, extends the expansion by one entry.
proof fn lemma_cc_keep<P: Pather>(
    pather: &P,
    r: Range,
    ans: Map<Point, Seq<Point>>,
    roots: Seq<Point>,
    labels: Seq<i32>,
    stack: Seq<usize>,
    cur: Point,
    t: int,
)
    requires
        cc_all_partial(pather, r, ans, roots, labels, stack, cur, t),
        ans.dom().contains(cur),
        lab(r, labels, cur) == roots.len() - 1,
        0 <= t < ans[cur].len(),
        r.spec_contains(ans[cur][t]) ==> lab(r, labels, ans[cur][t]) >= 0,
    ensures
        cc_all_partial(pather, r, ans, roots, labels, stack, cur, t + 1),
{
    if r.spec_contains(ans[cur][t]) {
        lemma_index_of_bounds(r, ans[cur][t]);
        assert(labels[PathRange::index_of(r, ans[cur][t])] < roots.len());
    }
}

/// Once `cur` is expanded in full, every listed point is closed.
proof fn lemma_cc_finish<P: Pather>(
    pather: &P,
    r: Range,
    ans: Map<Point, Seq<Point>>,
    roots: Seq<Point>,
    labels: Seq<i32>,
    stack: Seq<usize>,
    cur: Point,
)
    requires
        cc_all_partial(pather, r, ans, roots, labels, stack, cur, ans[cur].len() as int),
        ans.dom().contains(cur),
    ensures
        cc_all_closed(r, ans, labels),
        cc_all_partial(pather, r, ans, roots, labels, stack, cur, 0),
{
    assert forall|q: Point, x: Point| #[trigger] ans.dom().contains(q) && #[trigger] ans[q].contains(x) && r.spec_contains(x)
        implies 0 <= lab(r, labels, x) <= lab(r, labels, q) by {
        if q == cur {
            let j = choose|j: int| 0 <= j < ans[cur].len() && ans[cur][j] == x;
        }
    }
}

/// A finished labelling is explained by its lists and roots.
#[verifier::spinoff_prover]
#[verifier::rlimit(40)]
proof fn lemma_cc_all_done<P: Pather>(pr: &PathRange, pather: &P, ans: Map<Point, Seq<Point>>, roots: Seq<Point>, c: Point)
    requires
        pr.inv(),
        cc_all_partial(pather, pr.rng, ans, roots, pr.cc_labels@, seq![], c, 0),
        cc_all_closed(pr.rng, ans, pr.cc_labels@),
        forall|j: int| 0 <= j < pr.cc_labels@.len() ==> #[trigger] pr.cc_labels@[j] >= 0,
    ensures
        pr.cc_explained_by(pather, ans, roots),
{
    let r = pr.rng;
    let labels = pr.cc_labels@;
    pr.lemma_wf();
    assert forall|q: Point| r.spec_contains(q) implies #[trigger] pr.spec_cc_at(q) == Some(labels[PathRange::index_of(r, q)] as usize)
        && labels[PathRange::index_of(r, q)] >= 0 by {
        lemma_index_of_bounds(r, q);
    }
    assert forall|q: Point| #[trigger] ans.dom().contains(q) <==> r.spec_contains(q) by {
        if r.spec_contains(q) {
            lemma_index_of_bounds(r, q);
            assert(lab(r, labels, q) >= 0);
            if on_stack(seq![], PathRange::index_of(r, q)) {
                let j = choose|j: int| 0 <= j < Seq::<usize>::empty().len() && Seq::<usize>::empty()[j] as int == PathRange::index_of(r, q);
            }
        }
    }
    assert forall|q: Point, x: Point| #[trigger] ans.dom().contains(q) && #[trigger] ans[q].contains(x) && r.spec_contains(x)
        implies pr.spec_cc_at(x) is Some && pr.spec_cc_at(q) is Some && pr.spec_cc_at(x)->0 <= pr.spec_cc_at(q)->0 by {
        assert(r.spec_contains(q));
        assert(0 <= lab(r, labels, x) <= lab(r, labels, q));
        assert(pr.spec_cc_at(x) == Some(labels[PathRange::index_of(r, x)] as usize));
        assert(pr.spec_cc_at(q) == Some(labels[PathRange::index_of(r, q)] as usize));
    }
    assert forall|l: int| 0 <= l < roots.len() implies r.spec_contains(#[trigger] roots[l]) && pr.spec_cc_at(roots[l])
        == Some(l as usize) by {
        assert(lab(r, labels, roots[l]) == l);
    }
    assert forall|q: Point| r.spec_contains(q) implies (#[trigger] pr.spec_cc_at(q) matches Some(l) && l < roots.len()
        && reaches(r, ans, roots[l as int], q)) by {
        lemma_index_of_bounds(r, q);
        assert(lab(r, labels, q) >= 0);
    }
}

/// Whether the neighbour lists `ans` go both ways between points of the
/// range: `b` is listed for `a` exactly when `a` is listed for `b`.
pub open spec fn lists_symmetric(r: Range, ans: Map<Point, Seq<Point>>) -> bool {
    forall|a: Point, b: Point|
        #![trigger ans[a].contains(b), ans[b].contains(a)]
        r.spec_contains(a) && r.spec_contains(b) ==> (ans[a].contains(b) <==> ans[b].contains(a))
}

/// A walk along lists that go both ways, each point of the range having
/// one, can be walked backwards.
pub proof fn lemma_walk_reverse(r: Range, ans: Map<Point, Seq<Point>>, w: Seq<Point>)
    requires
        is_walk(r, ans, w),
        lists_symmetric(r, ans),
        forall|x: Point| r.spec_contains(x) ==> #[trigger] ans.dom().contains(x),
    ensures
        is_walk(r, ans, w.reverse()),
        w.reverse()[0] == w.last(),
        w.reverse().last() == w[0],
{
    let v = w.reverse();
    let n = w.len();
    assert forall|i: int| 0 <= i < v.len() implies r.spec_contains(#[trigger] v[i]) by {
        assert(v[i] == w[n - 1 - i]);
    }
    assert forall|i: int| 0 <= i < v.len() - 1 implies ans.dom().contains(#[trigger] v[i]) && ans[v[i]].contains(v[i + 1]) by {
        assert(v[i] == w[n - 1 - i]);
        assert(v[i + 1] == w[n - 2 - i]);
        assert(ans.dom().contains(w[n - 2 - i]) && ans[w[n - 2 - i]].contains(w[n - 1 - i]));
        assert(r.spec_contains(w[n - 1 - i]) && r.spec_contains(w[n - 2 - i]));
    }
}

/// Two walks, the second starting where the first ends, make one walk.
pub proof fn lemma_walk_concat(r: Range, ans: Map<Point, Seq<Point>>, w1: Seq<Point>, w2: Seq<Point>)
    requires
        is_walk(r, ans, w1),
        is_walk(r, ans, w2),
        w1.last() == w2[0],
    ensures
        is_walk(r, ans, w1 + w2.drop_first()),
        (w1 + w2.drop_first())[0] == w1[0],
        (w1 + w2.drop_first()).last() == w2.last(),
{
    let v = w1 + w2.drop_first();
    let n1 = w1.len();
    assert forall|i: int| 0 <= i < v.len() implies r.spec_contains(#[trigger] v[i]) by {
        if i < n1 {
            assert(v[i] == w1[i]);
        } else {
            assert(v[i] == w2[i - n1 + 1]);
        }
    }
    assert forall|i: int| 0 <= i < v.len() - 1 implies ans.dom().contains(#[trigger] v[i]) && ans[v[i]].contains(v[i + 1]) by {
        if i < n1 - 1 {
            assert(v[i] == w1[i] && v[i + 1] == w1[i + 1]);
        } else if i == n1 - 1 {
            assert(v[i] == w1[i] && w1[i] == w2[0]);
            assert(v[i + 1] == w2[1]);
        } else {
            assert(v[i] == w2[i - n1 + 1] && v[i + 1] == w2[i - n1 + 2]);
        }
    }
    if w2.len() == 1 {
        assert(v =~= w1);
    } else {
        assert(v.last() == w2[w2.len() - 1]);
    }
}

/// Labels never grow along a walk of an explained labelling.
pub proof fn lemma_walk_labels<P: Pather>(pr: &PathRange, pather: &P, ans: Map<Point, Seq<Point>>, roots: Seq<Point>, w: Seq<Point>)
    requires
        pr.cc_explained_by(pather, ans, roots),
        is_walk(pr.spec_range(), ans, w),
    ensures
        pr.spec_cc_at(w.last()) is Some,
        pr.spec_cc_at(w[0]) is Some,
        pr.spec_cc_at(w.last())->0 <= pr.spec_cc_at(w[0])->0,
    decreases w.len(),
{
    let r = pr.spec_range();
    assert(r.spec_contains(w[0]));
    assert(r.spec_contains(w[w.len() - 1]));
    if w.len() > 1 {
        let w2 = w.drop_last();
        assert forall|i: int| 0 <= i < w2.len() implies r.spec_contains(#[trigger] w2[i]) by {
            assert(w2[i] == w[i]);
        }
        assert forall|i: int| 0 <= i < w2.len() - 1 implies ans.dom().contains(#[trigger] w2[i]) && ans[w2[i]].contains(w2[i + 1]) by {
            assert(w2[i] == w[i] && w2[i + 1] == w[i + 1]);
        }
        lemma_walk_labels(pr, pather, ans, roots, w2);
        let n = w.len();
        assert(ans.dom().contains(w[n - 2]) && ans[w[n - 2]].contains(w[n - 1]));
        assert(w2.last() == w[n - 2]);
    }
}

/// With neighbour lists that go both ways, two cells of the range carry
/// the same label exactly when a walk joins them.
pub proof fn lemma_cc_labels_are_components<P: Pather>(
    pr: &PathRange,
    pather: &P,
    ans: Map<Point, Seq<Point>>,
    roots: Seq<Point>,
    p: Point,
    q: Point,
)
    requires
        pr.cc_explained_by(pather, ans, roots),
        lists_symmetric(pr.spec_range(), ans),
        pr.spec_range().spec_contains(p),
        pr.spec_range().spec_contains(q),
    ensures
        pr.spec_cc_at(p) == pr.spec_cc_at(q) <==> reaches(pr.spec_range(), ans, p, q),
{
    let r = pr.spec_range();
    assert(pr.spec_cc_at(p) is Some);
    assert(pr.spec_cc_at(q) is Some);
    if pr.spec_cc_at(p) == pr.spec_cc_at(q) {
        let l = pr.spec_cc_at(p)->0;
        let w1 = choose|w: Seq<Point>| #[trigger] is_walk(r, ans, w) && w[0] == roots[l as int] && w.last() == p;
        let w2 = choose|w: Seq<Point>| #[trigger] is_walk(r, ans, w) && w[0] == roots[l as int] && w.last() == q;
        lemma_walk_reverse(r, ans, w1);
        lemma_walk_concat(r, ans, w1.reverse(), w2);
        assert(is_walk(r, ans, w1.reverse() + w2.drop_first()));
    }
    if reaches(r, ans, p, q) {
        let w = choose|w: Seq<Point>| #[trigger] is_walk(r, ans, w) && w[0] == p && w.last() == q;
        lemma_walk_labels(pr, pather, ans, roots, w);
        lemma_walk_reverse(r, ans, w);
        lemma_walk_labels(pr, pather, ans, roots, w.reverse());
    }
}

/// The flood fill's invariant: the labelled cells are exactly the cells of
/// the result, all labelled 0, and the result has no repeats.
pub open spec fn cc_flood_inv(r: Range, labels: Seq<i32>, result: Seq<Point>) -> bool {
    &&& labels.len() == r.spec_len()
    &&& forall|j: int| 0 <= j < labels.len() ==> (#[trigger] labels[j] == -1 || labels[j] == 0)
    &&& forall|k: int| 0 <= k < result.len() ==> r.spec_contains(#[trigger] result[k]) && labels[PathRange::index_of(r, result[k])] == 0
    &&& forall|j: int| 0 <= j < labels.len() && #[trigger] labels[j] == 0 ==> exists|k: int|
        0 <= k < result.len() && PathRange::index_of(r, result[k]) == j
    &&& forall|a: int, b: int| 0 <= a < b < result.len() ==> #[trigger] result[a] != #[trigger] result[b]
}

proof fn lemma_flood_push(r: Range, labels: Seq<i32>, result: Seq<Point>, ni: usize, np: Point)
    requires
        cc_flood_inv(r, labels, result),
        r.spec_contains(np),
        ni == PathRange::index_of(r, np),
        ni < labels.len(),
        labels[ni as int] < 0,
    ensures
        cc_flood_inv(r, labels.update(ni as int, 0), result.push(np)),
{
    let l2 = labels.update(ni as int, 0);
    let r2 = result.push(np);
    assert forall|k: int| 0 <= k < r2.len() implies r.spec_contains(#[trigger] r2[k]) && l2[PathRange::index_of(r, r2[k])] == 0 by {
        if k < result.len() {
            lemma_index_of_bounds(r, result[k]);
        }
    }
    assert forall|j: int| 0 <= j < l2.len() && #[trigger] l2[j] == 0 implies exists|k: int|
        0 <= k < r2.len() && PathRange::index_of(r, r2[k]) == j by {
        if j == ni {
            assert(PathRange::index_of(r, r2[result.len() as int]) == j);
        } else {
            let k = choose|k: int| 0 <= k < result.len() && PathRange::index_of(r, result[k]) == j;
            assert(PathRange::index_of(r, r2[k]) == j);
        }
    }
    assert forall|a: int, b: int| 0 <= a < b < r2.len() implies #[trigger] r2[a] != #[trigger] r2[b] by {
        if b == result.len() {
            lemma_index_of_bounds(r, result[a]);
            if result[a] == np {
                assert(labels[PathRange::index_of(r, result[a])] == 0);
            }
        }
    }
}

} // verus!
