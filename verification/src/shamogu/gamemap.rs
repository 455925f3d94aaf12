//! Map state of a dungeon level, and the pathers that walk it.
use vstd::prelude::*;

use crate::geom::{Point, Range, pt, rg, max_int, fits_i32};
use crate::paths::distance::spec_manhattan;
use crate::paths::traits::{Pather, WeightedPather, AstarPather};
use crate::rl::fov::{FOV, fov_ok};
use crate::rl::grid::{Cell as RlCell, Grid as RlGrid};
use crate::shamogu::terrain::{passable, spec_passable, UNKNOWN};

pub use crate::shamogu::levelgen::{generate_map, try_generate_map};

verus! {

/// Map width.
pub const MAP_WIDTH: i32 = 80;

/// Map height.
pub const MAP_HEIGHT: i32 = 21;

/// The farthest the player sees.
pub const MAX_FOV_RANGE: i32 = 8;

/// The cell of `g` at relative position `p`, `None` outside the grid (also
/// where `p` is too far to be computed with).
pub fn terrain_at(g: &RlGrid, p: Point) -> (r: Option<RlCell>)
    ensures
        r is Some <==> g.has(p),
{
    let b = g.bounds();
    let ax: i64 = p.x as i64 + b.min.x as i64;
    let ay: i64 = p.y as i64 + b.min.y as i64;
    if ax > i32::MAX as i64 || ay > i32::MAX as i64 {
        return None;
    }
    g.at(p)
}

/// Whether `p` lies within the map's bounds.
pub open spec fn spec_in_map(p: Point) -> bool {
    0 <= p.x < MAP_WIDTH && 0 <= p.y < MAP_HEIGHT
}

/// The game map of a single dungeon level.
pub struct GameMap {
    pub terrain: RlGrid,
    pub known_terrain: RlGrid,
    pub fov: FOV,
    pub fov_points: Vec<Point>,
    pub waypoints: Vec<Point>,
    pub level: i32,
}

impl GameMap {
    /// An empty first level: the map's size of terrain, all of it unknown
    /// to the player, and a field of vision of the player's range.
    pub fn new() -> (m: GameMap)
        ensures
            m.terrain@ == rg(0, 0, MAP_WIDTH as int, MAP_HEIGHT as int),
            m.known_terrain@ == rg(0, 0, MAP_WIDTH as int, MAP_HEIGHT as int),
            m.fov.wf(),
            m.fov.spec_range() == rg(-MAX_FOV_RANGE as int, -MAX_FOV_RANGE as int, MAX_FOV_RANGE + 1, MAX_FOV_RANGE + 1),
            m.fov_points@.len() == 0,
            m.waypoints@.len() == 0,
            m.level == 1,
    {
        assert(max_int(MAP_WIDTH as int, 0) == 80 && max_int(MAP_HEIGHT as int, 0) == 21);
        assert(80 * 21 <= usize::MAX);
        let terrain = RlGrid::new(MAP_WIDTH, MAP_HEIGHT);
        let known_terrain = RlGrid::new(MAP_WIDTH, MAP_HEIGHT);
        known_terrain.fill(UNKNOWN());
        let fov_range = Range::new(-MAX_FOV_RANGE, -MAX_FOV_RANGE, MAX_FOV_RANGE + 1, MAX_FOV_RANGE + 1);
        GameMap {
            terrain,
            known_terrain,
            fov: FOV::new(fov_range),
            fov_points: Vec::new(),
            waypoints: Vec::new(),
            level: 1,
        }
    }

    /// Whether position `p` holds passable terrain; never outside the
    /// terrain grid.
    pub fn passable(&self, p: Point) -> (b: bool)
        ensures
            b ==> self.terrain.has(p),
    {
        match terrain_at(&self.terrain, p) {
            Some(c) => passable(c),
            None => false,
        }
    }

    /// Whether position `p` is within the map's bounds.
    pub fn in_map(&self, p: Point) -> (b: bool)
        ensures
            b == spec_in_map(p),
    {
        p.x >= 0 && p.y >= 0 && p.x < MAP_WIDTH && p.y < MAP_HEIGHT
    }
}

/// The four orthogonal neighbours of `p` that lie in the map, in the order
/// east, west, south, north.
pub open spec fn map_neighbors(p: Point) -> Seq<Point> {
    let ds = seq![pt(1, 0), pt(-1, 0), pt(0, 1), pt(0, -1)];
    ds.map_values(|d: Point| pt(p.x + d.x, p.y + d.y)).filter(|q: Point| spec_in_map(q))
}

/// The orthogonal step `k` from `p`: east, west, south, north for `k`
/// from 0 to 3.
pub open spec fn orth_step(p: Point, k: int) -> (int, int) {
    if k == 0 {
        (p.x + 1, p.y as int)
    } else if k == 1 {
        (p.x - 1, p.y as int)
    } else if k == 2 {
        (p.x as int, p.y + 1)
    } else {
        (p.x as int, p.y - 1)
    }
}

/// Whether a call of `keep` on `q` can only answer `v`.
pub open spec fn surely<F: Fn(Point) -> bool>(keep: F, q: Point, v: bool) -> bool {
    forall|b: bool| #[trigger] keep.ensures((q,), b) ==> b == v
}

/// The neighbours of `p` (one step in the order east, west, south, north)
/// for which `keep` holds and that can be computed in `i32`.
pub(crate) fn push_orthogonal<F: Fn(Point) -> bool>(p: Point, buf: &mut Vec<Point>, keep: &F)
    requires
        forall|q: Point| keep.requires((q,)),
    ensures
        final(buf)@.len() <= old(buf)@.len() + 4,
        final(buf)@.subrange(0, old(buf)@.len() as int) == old(buf)@,
        forall|i: int| old(buf)@.len() <= i < final(buf)@.len() ==> {
            let q = #[trigger] final(buf)@[i];
            &&& spec_manhattan(p, q) == 1
            &&& keep.ensures((q,), true)
        },
        forall|k: int| 0 <= k < 4 && #[trigger] fits_i32(orth_step(p, k).0) && fits_i32(orth_step(p, k).1)
            && surely(*keep, pt(orth_step(p, k).0, orth_step(p, k).1), true)
            ==> final(buf)@.subrange(old(buf)@.len() as int, final(buf)@.len() as int).contains(
                pt(orth_step(p, k).0, orth_step(p, k).1)),
        forall|q: Point| #[trigger] surely(*keep, q, false) ==> !final(buf)@.subrange(
            old(buf)@.len() as int, final(buf)@.len() as int).contains(q),
{
    let ghost b0 = buf@;
    let dirs: [(i64, i64); 4] = [(1, 0), (-1, 0), (0, 1), (0, -1)];
    let mut k: usize = 0;
    while k < 4
        invariant
            0 <= k <= 4,
            forall|q: Point| keep.requires((q,)),
            dirs@ == seq![(1i64, 0i64), (-1i64, 0i64), (0i64, 1i64), (0i64, -1i64)],
            b0.len() <= buf@.len() <= b0.len() + k,
            buf@.subrange(0, b0.len() as int) == b0,
            forall|i: int| b0.len() <= i < buf@.len() ==> {
                let q = #[trigger] buf@[i];
                &&& spec_manhattan(p, q) == 1
                &&& keep.ensures((q,), true)
            },
            forall|j: int| 0 <= j < k && #[trigger] fits_i32(orth_step(p, j).0) && fits_i32(orth_step(p, j).1)
                && surely(*keep, pt(orth_step(p, j).0, orth_step(p, j).1), true)
                ==> buf@.subrange(b0.len() as int, buf@.len() as int).contains(pt(orth_step(p, j).0, orth_step(p, j).1)),
        decreases 4 - k,
    {
        let (dx, dy) = dirs[k];
        let nx: i64 = p.x as i64 + dx;
        let ny: i64 = p.y as i64 + dy;
        let ghost bk = buf@;
        proof {
            assert(orth_step(p, k as int) == (nx as int, ny as int));
        }
        if i32::MIN as i64 <= nx && nx <= i32::MAX as i64 && i32::MIN as i64 <= ny && ny <= i32::MAX as i64 {
            let q = Point::new(nx as i32, ny as i32);
            if keep(q) {
                let ghost bb = buf@;
                buf.push(q);
                assert(buf@.subrange(0, b0.len() as int) =~= bb.subrange(0, b0.len() as int));
                proof {
                    let nw = buf@.subrange(b0.len() as int, buf@.len() as int);
                    let od = bb.subrange(b0.len() as int, bb.len() as int);
                    assert(nw =~= od.push(q));
                    assert(nw[nw.len() - 1] == q);
                    assert forall|j: int| 0 <= j < k + 1 && #[trigger] fits_i32(orth_step(p, j).0) && fits_i32(orth_step(p, j).1)
                        && surely(*keep, pt(orth_step(p, j).0, orth_step(p, j).1), true)
                        implies nw.contains(pt(orth_step(p, j).0, orth_step(p, j).1)) by {
                        if j < k {
                            let m = choose|m: int| 0 <= m < od.len() && od[m] == pt(orth_step(p, j).0, orth_step(p, j).1);
                            assert(nw[m] == od[m]);
                        }
                    }
                }
            } else {
                proof {
                    assert(!surely(*keep, q, true));
                }
            }
        }
        k = k + 1;
    }
    proof {
        assert forall|q: Point| #[trigger] surely(*keep, q, false) implies !buf@.subrange(
            b0.len() as int, buf@.len() as int).contains(q) by {
            if buf@.subrange(b0.len() as int, buf@.len() as int).contains(q) {
                let m = choose|m: int| 0 <= m < buf@.len() - b0.len() && buf@.subrange(b0.len() as int, buf@.len() as int)[m] == q;
                assert(buf@[b0.len() + m] == q);
                assert(keep.ensures((q,), true));
            }
        }
    }
}

/// A pather that walks orthogonally within the map from passable
/// positions, as a predicate tells them.
pub struct MappingPath<F: Fn(Point) -> bool> {
    passable: F,
}

impl<F: Fn(Point) -> bool> MappingPath<F> {
    #[verifier::type_invariant]
    spec fn inv(&self) -> bool {
        forall|q: Point| self.passable.requires((q,))
    }

    /// The predicate telling passable positions.
    pub closed spec fn spec_passable(&self) -> F {
        self.passable
    }

    /// A pather over the positions that `passable` accepts.
    pub fn new(passable: F) -> (m: MappingPath<F>)
        requires
            forall|q: Point| passable.requires((q,)),
    {
        MappingPath { passable }
    }
}

impl<F: Fn(Point) -> bool> Pather for MappingPath<F> {
    /// From a passable position, its orthogonal neighbours inside the map.
    fn neighbors(&self, p: Point, buf: &mut Vec<Point>)
        ensures
            final(buf)@.subrange(0, old(buf)@.len() as int) == old(buf)@,
            forall|i: int| old(buf)@.len() <= i < final(buf)@.len() ==> {
                let q = #[trigger] final(buf)@[i];
                &&& spec_in_map(q)
                &&& spec_manhattan(p, q) == 1
            },
            surely(self.spec_passable(), p, false) ==> final(buf)@ == old(buf)@,
            surely(self.spec_passable(), p, true) ==> forall|k: int| 0 <= k < 4 && fits_i32(orth_step(p, k).0)
                && fits_i32(orth_step(p, k).1) && #[trigger] spec_in_map(pt(orth_step(p, k).0, orth_step(p, k).1))
                ==> final(buf)@.subrange(old(buf)@.len() as int, final(buf)@.len() as int).contains(
                pt(orth_step(p, k).0, orth_step(p, k).1)),
    {
        proof {
            use_type_invariant(self);
        }
        if !(self.passable)(p) {
            return;
        }
        let in_map = |q: Point| -> (b: bool)
            ensures
                b == spec_in_map(q),
            { q.x >= 0 && q.y >= 0 && q.x < MAP_WIDTH && q.y < MAP_HEIGHT };
        let ghost b0 = buf@;
        push_orthogonal(p, buf, &in_map);
        proof {
            assert forall|k: int| 0 <= k < 4 && fits_i32(orth_step(p, k).0) && fits_i32(orth_step(p, k).1)
                && #[trigger] spec_in_map(pt(orth_step(p, k).0, orth_step(p, k).1))
                implies buf@.subrange(b0.len() as int, buf@.len() as int).contains(pt(orth_step(p, k).0, orth_step(p, k).1)) by {
                let q = pt(orth_step(p, k).0, orth_step(p, k).1);
                assert(surely(in_map, q, true));
            }
        }
    }
}

/// A pather for monsters: orthogonal steps onto passable terrain, a step
/// onto another actor costing more.
pub struct MonsterPather<'a> {
    pub terrain: &'a RlGrid,
    /// Whether an actor stands at each map position (row-major).
    pub actor_positions: &'a [bool],
    pub player_pos: Point,
}

/// The cost of stepping onto `to`: 5 onto another actor than the player,
/// else 1.
pub open spec fn monster_step_cost(actors: Seq<bool>, player: Point, to: Point) -> int {
    let idx = to.y * MAP_WIDTH + to.x;
    if 0 <= idx < actors.len() && actors[idx] && to != player { 5 } else { 1 }
}

impl<'a> Pather for MonsterPather<'a> {
    /// The orthogonal neighbours of `p` inside the terrain grid that are
    /// passable.
    fn neighbors(&self, p: Point, buf: &mut Vec<Point>)
        ensures
            final(buf)@.subrange(0, old(buf)@.len() as int) == old(buf)@,
            forall|i: int| old(buf)@.len() <= i < final(buf)@.len() ==> {
                let q = #[trigger] final(buf)@[i];
                &&& self.terrain.has(q)
                &&& spec_manhattan(p, q) == 1
            },
    {
        let t = self.terrain;
        let keep = |q: Point| -> (b: bool)
            ensures
                b ==> t.has(q),
            {
                match terrain_at(t, q) {
                    Some(c) => passable(c),
                    None => false,
                }
            };
        push_orthogonal(p, buf, &keep);
    }
}

impl<'a> WeightedPather for MonsterPather<'a> {
    fn cost(&self, from: Point, to: Point) -> (c: i32)
        ensures
            c == monster_step_cost(self.actor_positions@, self.player_pos, to),
    {
        let idx: i64 = (to.y as i64) * 80 + (to.x as i64);
        if idx < 0 || (idx as u128) >= (self.actor_positions.len() as u128) {
            return 1;
        }
        if self.actor_positions[idx as usize] && to != self.player_pos {
            5
        } else {
            1
        }
    }
}

impl<'a> AstarPather for MonsterPather<'a> {
    /// The Manhattan distance, no more than `i32::MAX`.
    fn estimate(&self, from: Point, to: Point) -> (e: i32)
        ensures
            e == if spec_manhattan(from, to) <= i32::MAX {
                spec_manhattan(from, to)
            } else {
                i32::MAX as int
            },
    {
        let dx: i64 = from.x as i64 - to.x as i64;
        let dy: i64 = from.y as i64 - to.y as i64;
        let ax: i64 = if dx < 0 { -dx } else { dx };
        let ay: i64 = if dy < 0 { -dy } else { dy };
        let d: i64 = ax + ay;
        if d > i32::MAX as i64 {
            i32::MAX
        } else {
            d as i32
        }
    }
}

} // verus!
