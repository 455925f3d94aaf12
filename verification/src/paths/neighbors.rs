//! Neighbour enumeration with a filter.
use vstd::prelude::*;

use crate::geom::{Point, pt};

verus! {

/// The candidates whose flag is set, in order.
pub open spec fn select(cands: Seq<Point>, flags: Seq<bool>) -> Seq<Point>
    decreases cands.len(),
{
    if cands.len() == 0 || flags.len() == 0 {
        Seq::empty()
    } else {
        let rest = select(cands.drop_last(), flags.drop_last());
        if flags.last() {
            rest.push(cands.last())
        } else {
            rest
        }
    }
}

/// The cardinal neighbours of `p`: north, east, south, west.
pub open spec fn cardinal_cands(p: Point) -> Seq<Point> {
    seq![pt(p.x as int, p.y - 1), pt(p.x + 1, p.y as int), pt(p.x as int, p.y + 1), pt(p.x - 1, p.y as int)]
}

/// The diagonal neighbours of `p`: north-west, north-east, south-west,
/// south-east.
pub open spec fn diagonal_cands(p: Point) -> Seq<Point> {
    seq![pt(p.x - 1, p.y - 1), pt(p.x + 1, p.y - 1), pt(p.x - 1, p.y + 1), pt(p.x + 1, p.y + 1)]
}

/// The eight neighbours of `p`, row by row from the north-west.
pub open spec fn all_cands(p: Point) -> Seq<Point> {
    seq![
        pt(p.x - 1, p.y - 1), pt(p.x as int, p.y - 1), pt(p.x + 1, p.y - 1),
        pt(p.x - 1, p.y as int), pt(p.x + 1, p.y as int),
        pt(p.x - 1, p.y + 1), pt(p.x as int, p.y + 1), pt(p.x + 1, p.y + 1),
    ]
}

/// Whether the neighbours of `p` can be computed in `i32`.
pub open spec fn inner(p: Point) -> bool {
    i32::MIN < p.x < i32::MAX && i32::MIN < p.y < i32::MAX
}

/// What a filtered enumeration returns: the candidates for which `keep`
/// answered `true`, in order.
pub open spec fn filtered<F: Fn(Point) -> bool>(cands: Seq<Point>, keep: F, r: Seq<Point>) -> bool {
    exists|flags: Seq<bool>|
        flags.len() == cands.len() && (forall|i: int| 0 <= i < cands.len() ==> #[trigger] keep.ensures(
            (cands[i],),
            flags[i],
        )) && r == select(cands, flags)
}

/// Cached neighbour computation helper.
pub struct Neighbors {
    buf: Vec<Point>,
}

impl Default for Neighbors {
    fn default() -> (n: Neighbors) {
        Neighbors::new()
    }
}

impl Neighbors {
    /// Create a new `Neighbors` helper.
    pub fn new() -> (n: Neighbors) {
        Neighbors { buf: Vec::new() }
    }

    fn collect<F: Fn(Point) -> bool>(&mut self, cands: &Vec<Point>, keep: &F)
        requires
            forall|q: Point| keep.requires((q,)),
        ensures
            filtered(cands@, *keep, final(self).buf@),
    {
        self.buf.clear();
        let ghost mut flags: Seq<bool> = Seq::empty();
        let mut i: usize = 0;
        while i < cands.len()
            invariant
                i <= cands.len(),
                forall|q: Point| keep.requires((q,)),
                flags.len() == i,
                forall|j: int| 0 <= j < i ==> #[trigger] keep.ensures((cands@[j],), flags[j]),
                self.buf@ == select(cands@.take(i as int), flags),
            decreases cands.len() - i,
        {
            let n = cands[i];
            let b = keep(n);
            if b {
                self.buf.push(n);
            }
            proof {
                let nf = flags.push(b);
                assert(cands@.take(i + 1).drop_last() =~= cands@.take(i as int));
                assert(nf.drop_last() =~= flags);
                flags = nf;
            }
            i = i + 1;
        }
        assert(cands@.take(cands.len() as int) =~= cands@);
        assert(filtered(cands@, *keep, self.buf@));
    }

    /// The 4 cardinal neighbours of `p` (north, east, south, west) for which
    /// `keep` returns `true`.
    pub fn cardinal<F: Fn(Point) -> bool>(&mut self, p: Point, keep: F) -> (r: &[Point])
        requires
            inner(p),
            forall|q: Point| keep.requires((q,)),
        ensures
            filtered(cardinal_cands(p), keep, r@),
    {
        let cands: Vec<Point> = vec![
            Point::new(p.x, p.y - 1),
            Point::new(p.x + 1, p.y),
            Point::new(p.x, p.y + 1),
            Point::new(p.x - 1, p.y),
        ];
        assert(cands@ =~= cardinal_cands(p));
        self.collect(&cands, &keep);
        self.buf.as_slice()
    }

    /// The 4 diagonal neighbours of `p` (NW, NE, SW, SE) for which `keep`
    /// returns `true`.
    pub fn diagonal<F: Fn(Point) -> bool>(&mut self, p: Point, keep: F) -> (r: &[Point])
        requires
            inner(p),
            forall|q: Point| keep.requires((q,)),
        ensures
            filtered(diagonal_cands(p), keep, r@),
    {
        let cands: Vec<Point> = vec![
            Point::new(p.x - 1, p.y - 1),
            Point::new(p.x + 1, p.y - 1),
            Point::new(p.x - 1, p.y + 1),
            Point::new(p.x + 1, p.y + 1),
        ];
        assert(cands@ =~= diagonal_cands(p));
        self.collect(&cands, &keep);
        self.buf.as_slice()
    }

    /// The 8 neighbours of `p`, row by row, for which `keep` returns `true`.
    pub fn all<F: Fn(Point) -> bool>(&mut self, p: Point, keep: F) -> (r: &[Point])
        requires
            inner(p),
            forall|q: Point| keep.requires((q,)),
        ensures
            filtered(all_cands(p), keep, r@),
    {
        let cands: Vec<Point> = vec![
            Point::new(p.x - 1, p.y - 1),
            Point::new(p.x, p.y - 1),
            Point::new(p.x + 1, p.y - 1),
            Point::new(p.x - 1, p.y),
            Point::new(p.x + 1, p.y),
            Point::new(p.x - 1, p.y + 1),
            Point::new(p.x, p.y + 1),
            Point::new(p.x + 1, p.y + 1),
        ];
        assert(cands@ =~= all_cands(p));
        self.collect(&cands, &keep);
        self.buf.as_slice()
    }
}

} // verus!
