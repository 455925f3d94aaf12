//! Generation of a dungeon level: a cave grown by cellular automata, a
//! foliage overlay, vaults dug from text templates and joined by tunnels,
//! waypoints and monster spawn points.
use vstd::prelude::*;

use rand::rngs::StdRng;

use crate::geom::{Point, pt, fits_i32};
use crate::paths::pathrange::PathRange;
use crate::paths::distance::spec_manhattan;
use crate::paths::traits::{Pather, WeightedPather, AstarPather};
use crate::rl::grid::{Cell as RlCell, Grid as RlGrid};
use crate::rl::mapgen::{random_below, random_index, os_seeded_rng, CellularAutomataRule, MapGen};
use crate::rl::vault::{Vault, trim_seq, trim_chars, turnable, split_lines, lines_of};
use crate::shamogu::game::map_range;
use crate::shamogu::gamemap::{terrain_at, spec_in_map, MappingPath, MAP_WIDTH, MAP_HEIGHT, orth_step, surely};
use crate::shamogu::terrain::{passable, WALL, FLOOR, FOLIAGE, RUBBLE, TRANSLUCENT_WALL};
use crate::util::{chars_of, string_of};

verus! {

/// The state of splitting a text at blank lines after some characters:
/// the pieces closed, the piece going on, and whether a newline is
/// pending.
pub open spec fn blank_scan(t: Seq<char>) -> (Seq<Seq<char>>, Seq<char>, bool)
    decreases t.len(),
{
    if t.len() == 0 {
        (seq![], seq![], false)
    } else {
        let (ps, cur, nl) = blank_scan(t.drop_last());
        let c = t.last();
        if c == '\n' {
            if nl {
                (ps.push(cur), seq![], false)
            } else {
                (ps, cur, true)
            }
        } else if nl {
            (ps, cur.push('\n').push(c), false)
        } else {
            (ps, cur.push(c), false)
        }
    }
}

/// `t` split at each pair of newlines, matched left to right.
pub open spec fn split_blank(t: Seq<char>) -> Seq<Seq<char>> {
    let (ps, cur, nl) = blank_scan(t);
    ps.push(if nl { cur.push('\n') } else { cur })
}

/// `s` without its spaces.
pub open spec fn without_spaces(s: Seq<char>) -> Seq<char>
    decreases s.len(),
{
    if s.len() == 0 {
        s
    } else if s.last() == ' ' {
        without_spaces(s.drop_last())
    } else {
        without_spaces(s.drop_last()).push(s.last())
    }
}

/// The vault templates of a file: its text without spaces, trimmed, split
/// at blank lines.
pub open spec fn vault_texts(s: Seq<char>) -> Seq<Seq<char>> {
    split_blank(trim_seq(without_spaces(s)))
}

/// Split a vault template file into its templates.
fn split_vaults(s: &str) -> (v: Vec<String>)
    ensures
        v@.len() == vault_texts(s@).len(),
        forall|k: int| 0 <= k < v@.len() ==> #[trigger] v@[k]@ == vault_texts(s@)[k],
{
    let cs = chars_of(s);
    let mut ns: Vec<char> = Vec::new();
    let mut i: usize = 0;
    while i < cs.len()
        invariant
            i <= cs@.len(),
            cs@ == s@,
            ns@ == without_spaces(cs@.take(i as int)),
        decreases cs@.len() - i,
    {
        assert(cs@.take(i + 1).drop_last() =~= cs@.take(i as int));
        if cs[i] != ' ' {
            ns.push(cs[i]);
        }
        i = i + 1;
    }
    assert(cs@.take(cs@.len() as int) =~= cs@);
    let t = trim_chars(&ns);
    let mut pieces: Vec<String> = Vec::new();
    let mut cur: Vec<char> = Vec::new();
    let mut nl = false;
    let mut k: usize = 0;
    while k < t.len()
        invariant
            k <= t@.len(),
            blank_scan(t@.take(k as int)) == (pieces@.map_values(|p: String| p@), cur@, nl),
        decreases t@.len() - k,
    {
        assert(t@.take(k + 1).drop_last() =~= t@.take(k as int));
        assert(t@.take(k + 1).last() == t@[k as int]);
        let c = t[k];
        if c == '\n' {
            if nl {
                let p = string_of(&cur);
                let ghost before = pieces@;
                pieces.push(p);
                assert(pieces@.map_values(|p: String| p@) =~= before.map_values(|p: String| p@).push(cur@));
                cur = Vec::new();
                nl = false;
            } else {
                nl = true;
            }
        } else {
            if nl {
                cur.push('\n');
            }
            cur.push(c);
            nl = false;
        }
        k = k + 1;
    }
    assert(t@.take(t@.len() as int) =~= t@);
    if nl {
        cur.push('\n');
    }
    let last = string_of(&cur);
    let ghost before = pieces@;
    pieces.push(last);
    assert(pieces@.map_values(|p: String| p@) =~= before.map_values(|p: String| p@).push(cur@));
    proof {
        assert forall|j: int| 0 <= j < pieces@.len() implies #[trigger] pieces@[j]@ == vault_texts(s@)[j] by {
            assert(pieces@.map_values(|p: String| p@)[j] == pieces@[j]@);
        }
    }
    pieces
}

/// The flat index of a map position.
pub open spec fn map_idx(p: Point) -> int {
    p.y * MAP_WIDTH + p.x
}

/// Whether a mask over the map's positions is set at `p` (never outside
/// the mask).
pub open spec fn mask_at(mask: Seq<bool>, p: Point) -> bool {
    0 <= map_idx(p) < mask.len() && mask[map_idx(p)]
}

/// `mask_at`, computed.
fn mask_get(mask: &[bool], p: Point) -> (b: bool)
    ensures
        b == mask_at(mask@, p),
{
    let idx: i64 = p.y as i64 * 80 + p.x as i64;
    if idx < 0 || idx as u64 >= mask.len() as u64 {
        return false;
    }
    mask[idx as usize]
}

/// Whether `p` lies within the map, computed.
fn in_map(p: Point) -> (b: bool)
    ensures
        b == spec_in_map(p),
{
    p.x >= 0 && p.y >= 0 && p.x < MAP_WIDTH && p.y < MAP_HEIGHT
}

/// A random position of the map holding floor, drawn at most a thousand
/// times.
fn random_passable(terrain: &RlGrid, rng: &mut StdRng) -> (r: Option<Point>)
    ensures
        r matches Some(p) ==> spec_in_map(p),
{
    let mut k: u32 = 0;
    while k < 1000
        decreases 1000 - k,
    {
        let x = random_below(rng, MAP_WIDTH as u32) as i32;
        let y = random_below(rng, MAP_HEIGHT as u32) as i32;
        let p = Point::new(x, y);
        match terrain_at(terrain, p) {
            Some(c) => {
                if c == FLOOR() {
                    return Some(p);
                }
            },
            None => {},
        }
        k = k + 1;
    }
    None
}

/// How many of the orthogonal neighbours of `to` hold wall, leaving out
/// `from` and the one straight ahead in the direction from `from` to
/// `to`.
fn count_lateral_walls(terrain: &RlGrid, from: Point, to: Point) -> (n: i32)
    ensures
        0 <= n <= 4,
{
    let dirs: [(i32, i32); 4] = [(1, 0), (-1, 0), (0, 1), (0, -1)];
    let dx: i64 = to.x as i64 - from.x as i64;
    let dy: i64 = to.y as i64 - from.y as i64;
    let mut n: i32 = 0;
    let mut k: usize = 0;
    while k < 4
        invariant
            0 <= n <= k <= 4,
        decreases 4 - k,
    {
        let (ddx, ddy) = dirs[k];
        k = k + 1;
        let px: i64 = to.x as i64 + ddx as i64;
        let py: i64 = to.y as i64 + ddy as i64;
        if (ddx as i64 == dx && ddy as i64 == dy) || (px == from.x as i64 && py == from.y as i64) {
            continue;
        }
        if px < i32::MIN as i64 || px > i32::MAX as i64 || py < i32::MIN as i64 || py > i32::MAX as i64 {
            continue;
        }
        if terrain_at(terrain, Point::new(px as i32, py as i32)) == Some(WALL()) {
            n = n + 1;
        }
    }
    n
}

/// A tunnel digger for map generation: A* over the map's orthogonal
/// steps, costly through vaults (unless along a tunnel) and cheaper
/// through walls lined by more walls.
pub struct TunnelPather<'a> {
    pub terrain: &'a RlGrid,
    pub vault_mask: &'a [bool],
    pub tunnel: &'a [bool],
}

impl<'a> Pather for TunnelPather<'a> {
    /// The orthogonal neighbours of `p` inside the map.
    fn neighbors(&self, p: Point, buf: &mut Vec<Point>)
        ensures
            final(buf)@.subrange(0, old(buf)@.len() as int) == old(buf)@,
            forall|i: int| old(buf)@.len() <= i < final(buf)@.len() ==> {
                let q = #[trigger] final(buf)@[i];
                &&& spec_in_map(q)
                &&& spec_manhattan(p, q) == 1
            },
            forall|k: int| 0 <= k < 4 && fits_i32(orth_step(p, k).0) && fits_i32(orth_step(p, k).1)
                && #[trigger] spec_in_map(pt(orth_step(p, k).0, orth_step(p, k).1))
                ==> final(buf)@.subrange(old(buf)@.len() as int, final(buf)@.len() as int).contains(
                pt(orth_step(p, k).0, orth_step(p, k).1)),
    {
        let keep = |q: Point| -> (b: bool)
            ensures
                b == spec_in_map(q),
            { in_map(q) };
        let ghost b0 = buf@;
        crate::shamogu::gamemap::push_orthogonal(p, buf, &keep);
        proof {
            assert forall|k: int| 0 <= k < 4 && fits_i32(orth_step(p, k).0) && fits_i32(orth_step(p, k).1)
                && #[trigger] spec_in_map(pt(orth_step(p, k).0, orth_step(p, k).1))
                implies buf@.subrange(b0.len() as int, buf@.len() as int).contains(pt(orth_step(p, k).0, orth_step(p, k).1)) by {
                assert(surely(keep, pt(orth_step(p, k).0, orth_step(p, k).1), true));
            }
        }
    }
}

impl<'a> WeightedPather for TunnelPather<'a> {
    /// Into a vault: 10 along a tunnel, else 100. Onto passable terrain: 1
    /// for floor or along a tunnel, else 2. Into a wall: 3, one more from
    /// the map's border or from passable terrain, less one per lateral
    /// wall around it, at least 1.
    fn cost(&self, from: Point, to: Point) -> (c: i32)
        ensures
            1 <= c <= 100,
            mask_at(self.vault_mask@, to) ==> c == if mask_at(self.tunnel@, to) { 10int } else { 100int },
    {
        if mask_get(self.vault_mask, to) {
            if !mask_get(self.tunnel, to) {
                return 100;
            }
            return 10;
        }
        let t = match terrain_at(self.terrain, to) {
            Some(t) => t,
            None => WALL(),
        };
        if passable(t) {
            if !mask_get(self.tunnel, to) && t != FLOOR() {
                return 2;
            }
            return 1;
        }
        let mut c: i32 = 3;
        let tf = match terrain_at(self.terrain, from) {
            Some(t) => t,
            None => WALL(),
        };
        if from.x == MAP_WIDTH - 1 || from.x == 0 || from.y == 0 || from.y == MAP_HEIGHT - 1 || passable(tf) {
            c = c + 1;
        }
        let wc = count_lateral_walls(self.terrain, from, to);
        if c - wc >= 1 {
            c - wc
        } else {
            1
        }
    }
}

impl<'a> AstarPather for TunnelPather<'a> {
    /// The Manhattan distance, no more than `i32::MAX`.
    fn estimate(&self, from: Point, to: Point) -> (e: i32)
        ensures
            e == if spec_manhattan(from, to) <= i32::MAX {
                spec_manhattan(from, to)
            } else {
                i32::MAX as int
            },
    {
        let dx: i64 = from.x as i64 - to.x as i64;
        let dy: i64 = from.y as i64 - to.y as i64;
        let ax: i64 = if dx < 0 { -dx } else { dx };
        let ay: i64 = if dy < 0 { -dy } else { dy };
        let d: i64 = ax + ay;
        if d > i32::MAX as i64 {
            i32::MAX
        } else {
            d as i32
        }
    }
}

/// An entry of a vault, where tunnels may start.
pub struct VaultEntry {
    pub pos: Point,
    pub used: bool,
}

/// The kind of a special place of a vault.
#[derive(Clone, Copy, PartialEq, Eq, Structural)]
pub enum PlaceKind {
    Waypoint,
    Item,
    Static,
}

/// A special place of a vault.
pub struct VaultPlace {
    pub pos: Point,
    pub kind: PlaceKind,
    pub used: bool,
}

/// Where a vault is placed.
#[derive(Clone, Copy, PartialEq, Eq, Structural)]
pub enum Placement {
    Random,
    Center,
    Edge,
}

/// A vault placed on the map.
pub struct VaultInfo {
    pub pos: Point,
    pub w: i32,
    pub h: i32,
    pub entries: Vec<VaultEntry>,
    pub places: Vec<VaultPlace>,
    pub vault: Vault,
    pub tunnels: i32,
}

/// A placed vault: it fits in the map, its entries lie strictly inside the
/// map, its places can be addressed, and its tunnel count is in range.
pub open spec fn vault_ok(v: VaultInfo) -> bool {
    &&& 0 <= v.pos.x
    &&& 0 <= v.pos.y
    &&& 0 < v.w
    &&& 0 < v.h
    &&& v.pos.x + v.w <= MAP_WIDTH
    &&& v.pos.y + v.h <= MAP_HEIGHT
    &&& 0 <= v.tunnels <= 1000
    &&& forall|k: int| 0 <= k < v.entries@.len() ==> {
        let e = #[trigger] v.entries@[k].pos;
        0 < e.x < MAP_WIDTH - 1 && 0 < e.y < MAP_HEIGHT - 1
    }
}

/// The map generator's state: the terrain, the vaults placed, and masks
/// over the map of tunnels, vault cells and item places.
pub struct MapGenState {
    pub terrain: RlGrid,
    pub vaults: Vec<VaultInfo>,
    pub tunnel: Vec<bool>,
    pub vault_mask: Vec<bool>,
    pub item_place: Vec<bool>,
}

impl MapGenState {
    /// The terrain spans the map, each mask has a flag per map position,
    /// and the vaults are placed.
    pub open spec fn wf(&self) -> bool {
        &&& self.terrain@ == map_range()
        &&& self.tunnel@.len() == MAP_WIDTH * MAP_HEIGHT
        &&& self.vault_mask@.len() == MAP_WIDTH * MAP_HEIGHT
        &&& self.item_place@.len() == MAP_WIDTH * MAP_HEIGHT
        &&& forall|k: int| 0 <= k < self.vaults@.len() ==> vault_ok(#[trigger] self.vaults@[k])
    }

    /// A state over `terrain` with no vault and clear masks.
    fn new(terrain: RlGrid) -> (m: MapGenState)
        requires
            terrain@ == map_range(),
        ensures
            m.wf(),
            m.vaults@.len() == 0,
            forall|k: int| 0 <= k < MAP_WIDTH * MAP_HEIGHT ==> !m.tunnel@[k] && !m.vault_mask@[k] && !m.item_place@[k],
    {
        let n: usize = 1680;
        MapGenState {
            terrain,
            vaults: Vec::new(),
            tunnel: vec![false; n],
            vault_mask: vec![false; n],
            item_place: vec![false; n],
        }
    }

    /// The flat index of a map position.
    fn idx(&self, p: Point) -> (i: usize)
        requires
            spec_in_map(p),
        ensures
            i == map_idx(p),
            i < MAP_WIDTH * MAP_HEIGHT,
    {
        (p.y * MAP_WIDTH + p.x) as usize
    }

    /// Whether `p` is a vault cell.
    fn in_vault(&self, p: Point) -> (b: bool)
        ensures
            b == mask_at(self.vault_mask@, p),
    {
        mask_get(self.vault_mask.as_slice(), p)
    }

    /// Whether `p` is a tunnel cell.
    fn in_tunnel(&self, p: Point) -> (b: bool)
        ensures
            b == mask_at(self.tunnel@, p),
    {
        mask_get(self.tunnel.as_slice(), p)
    }
}

/// The centre of a vault.
pub open spec fn spec_vault_center(v: VaultInfo) -> Point {
    pt(v.pos.x + v.w / 2, v.pos.y + v.h / 2)
}

/// The centre of a vault.
fn vault_center(v: &VaultInfo) -> (c: Point)
    requires
        vault_ok(*v),
    ensures
        c == spec_vault_center(*v),
        spec_in_map(c),
{
    Point::new(v.pos.x + v.w / 2, v.pos.y + v.h / 2)
}

/// The Manhattan distance between the centres of two vaults.
fn vault_distance(v1: &VaultInfo, v2: &VaultInfo) -> (d: i32)
    requires
        vault_ok(*v1),
        vault_ok(*v2),
    ensures
        d == spec_manhattan(spec_vault_center(*v1), spec_vault_center(*v2)),
        0 <= d <= MAP_WIDTH + MAP_HEIGHT,
{
    let a = vault_center(v1);
    let b = vault_center(v2);
    let dx: i32 = if a.x >= b.x { a.x - b.x } else { b.x - a.x };
    let dy: i32 = if a.y >= b.y { a.y - b.y } else { b.y - a.y };
    dx + dy
}

/// The chance, out of 2^53, that a cell of the cave starts as a wall: 42,
/// 45 or 48 percent for a choice below 3.
fn cave_wall_threshold(choice: u32) -> (t: u64)
    ensures
        t == if choice == 0 { 3783023686991217u64 } else if choice == 1 { 4053239664633447u64 } else { 4323455642275676u64 },
{
    if choice == 0 {
        3783023686991217
    } else if choice == 1 {
        4053239664633447
    } else {
        4323455642275676
    }
}

/// The chance, out of 2^53, that a cell of the foliage overlay starts as a
/// wall: 54, 53 or 55 percent for a choice below 3.
fn foliage_wall_threshold(choice: u32) -> (t: u64)
    ensures
        t == if choice == 0 { 4863887597560136u64 } else if choice == 1 { 4773815605012726u64 } else { 4953959590107546u64 },
{
    if choice == 0 {
        4863887597560136
    } else if choice == 1 {
        4773815605012726
    } else {
        4953959590107546
    }
}

/// Grow the cave: the terrain becomes floor and walls by cellular
/// automata (a wall share of 42, 45 or 48 percent at random, then rules
/// (5, 2) four times and (5, 25) three times, out of range counting as
/// wall).
fn gen_cellular_automata(mg: &mut MapGenState, rng: &mut StdRng)
    requires
        old(mg).wf(),
    ensures
        final(mg).wf(),
        final(mg).terrain == old(mg).terrain,
        final(mg).vaults == old(mg).vaults,
        final(mg).tunnel == old(mg).tunnel,
        final(mg).vault_mask == old(mg).vault_mask,
        final(mg).item_place == old(mg).item_place,
{
    let rules = vec![
        CellularAutomataRule { w_cutoff1: 5, w_cutoff2: 2, reps: 4, walls_out_of_range: true },
        CellularAutomataRule { w_cutoff1: 5, w_cutoff2: 25, reps: 3, walls_out_of_range: true },
    ];
    let n = cave_wall_threshold(random_below(rng, 3));
    let mut map_gen = MapGen::with_grid(mg.terrain.clone(), os_seeded_rng());
    let _ = map_gen.cellular_automata_cave(WALL(), FLOOR(), n, &rules);
    let _ = mg.terrain.copy_from(&map_gen.grid);
}

/// Overlay foliage: a second cellular automaton (a wall share of 54, 53 or
/// 55 percent at random, then rules (5, 2) four times and (5, 25) twice)
/// marks where floor turns to foliage.
fn gen_foliage(mg: &mut MapGenState, rng: &mut StdRng)
    requires
        old(mg).wf(),
    ensures
        final(mg).wf(),
        final(mg).terrain == old(mg).terrain,
        final(mg).vaults == old(mg).vaults,
        final(mg).tunnel == old(mg).tunnel,
        final(mg).vault_mask == old(mg).vault_mask,
        final(mg).item_place == old(mg).item_place,
{
    let foliage_grid = RlGrid::new(MAP_WIDTH, MAP_HEIGHT);
    let rules = vec![
        CellularAutomataRule { w_cutoff1: 5, w_cutoff2: 2, reps: 4, walls_out_of_range: true },
        CellularAutomataRule { w_cutoff1: 5, w_cutoff2: 25, reps: 2, walls_out_of_range: true },
    ];
    let winit = foliage_wall_threshold(random_below(rng, 3));
    let mut fol_gen = MapGen::with_grid(foliage_grid, os_seeded_rng());
    let _ = fol_gen.cellular_automata_cave(WALL(), FOLIAGE(), winit, &rules);
    let mut y: i32 = 0;
    while y < MAP_HEIGHT
        invariant
            0 <= y <= MAP_HEIGHT,
            mg.terrain@ == map_range(),
        decreases MAP_HEIGHT - y,
    {
        let mut x: i32 = 0;
        while x < MAP_WIDTH
            invariant
                0 <= x <= MAP_WIDTH,
                0 <= y < MAP_HEIGHT,
                mg.terrain@ == map_range(),
            decreases MAP_WIDTH - x,
        {
            let p = Point::new(x, y);
            if terrain_at(&mg.terrain, p) == Some(FLOOR()) && terrain_at(&fol_gen.grid, p) == Some(FOLIAGE()) {
                mg.terrain.set(p, FOLIAGE());
            }
            x = x + 1;
        }
        y = y + 1;
    }
}

/// An entry index of a vault with entries: a random unused one, else a
/// random one.
fn unused_entry(vi: &VaultInfo, rng: &mut StdRng) -> (i: usize)
    requires
        vi.entries@.len() > 0,
    ensures
        i < vi.entries@.len(),
        (exists|k: int| 0 <= k < vi.entries@.len() && !vi.entries@[k].used) ==> !vi.entries@[i as int].used,
{
    let mut unused: Vec<usize> = Vec::new();
    let mut k: usize = 0;
    while k < vi.entries.len()
        invariant
            k <= vi.entries@.len(),
            forall|j: int| 0 <= j < unused@.len() ==> #[trigger] unused@[j] < vi.entries@.len()
                && !vi.entries@[unused@[j] as int].used,
            forall|j: int| 0 <= j < k && !vi.entries@[j].used ==> unused@.len() > 0,
        decreases vi.entries@.len() - k,
    {
        if !vi.entries[k].used {
            unused.push(k);
        }
        k = k + 1;
    }
    if unused.len() == 0 {
        random_index(rng, vi.entries.len())
    } else {
        let r = random_index(rng, unused.len());
        unused[r]
    }
}

/// The nearest of the vaults before `i` (by the distance of their
/// centres, the first of equals), or the first vault when `i` is 0.
fn find_nearest_connected(vaults: &Vec<VaultInfo>, i: usize) -> (best: usize)
    requires
        i < vaults@.len(),
        forall|k: int| 0 <= k < vaults@.len() ==> vault_ok(#[trigger] vaults@[k]),
    ensures
        i == 0 ==> best == 0,
        i > 0 ==> best < i,
        forall|j: int| 0 <= j < i ==> spec_manhattan(spec_vault_center(vaults@[i as int]), spec_vault_center(vaults@[best as int]))
            <= spec_manhattan(spec_vault_center(vaults@[i as int]), spec_vault_center(#[trigger] vaults@[j])),
        forall|j: int| 0 <= j < best ==> spec_manhattan(spec_vault_center(vaults@[i as int]), spec_vault_center(vaults@[best as int]))
            < spec_manhattan(spec_vault_center(vaults@[i as int]), spec_vault_center(#[trigger] vaults@[j])),
{
    let mut best: usize = 0;
    let mut best_dist: i32 = i32::MAX;
    let mut j: usize = 0;
    while j < i
        invariant
            j <= i < vaults@.len(),
            forall|k: int| 0 <= k < vaults@.len() ==> vault_ok(#[trigger] vaults@[k]),
            j == 0 ==> best == 0 && best_dist == i32::MAX,
            j > 0 ==> best < j && best_dist == spec_manhattan(spec_vault_center(vaults@[i as int]), spec_vault_center(vaults@[best as int])),
            forall|k: int| 0 <= k < j ==> best_dist <= spec_manhattan(spec_vault_center(vaults@[i as int]), spec_vault_center(#[trigger] vaults@[k])),
            forall|k: int| 0 <= k < best ==> best_dist < spec_manhattan(spec_vault_center(vaults@[i as int]), spec_vault_center(#[trigger] vaults@[k])),
        decreases i - j,
    {
        let d = vault_distance(&vaults[i], &vaults[j]);
        if d < best_dist {
            best_dist = d;
            best = j;
        }
        j = j + 1;
    }
    best
}

/// The terrain a vault character stands for, drawing at random where the
/// character leaves a choice (none for characters that leave the terrain
/// as it is).
fn vault_terrain(c: char, rng: &mut StdRng) -> (t: Option<RlCell>)
    ensures
        c == '.' || c == '!' || c == '-' || c == '>' || c == 'W' ==> t == Some(RlCell(1)),
        c == '#' || c == '+' ==> t == Some(RlCell(0)),
        c == '$' ==> t == Some(RlCell(4)),
        c == '%' ==> t == Some(RlCell(0)) || t == Some(RlCell(4)),
        c == '&' ==> t == Some(RlCell(0)) || t == Some(RlCell(4)) || t == Some(RlCell(2)) || t == Some(RlCell(3))
            || t == Some(RlCell(1)),
        c == '"' ==> t == Some(RlCell(2)),
        c == '^' ==> t == Some(RlCell(3)),
        c == ':' ==> t == Some(RlCell(1)) || t == Some(RlCell(2)) || t == Some(RlCell(3)),
        !(c == '.' || c == '!' || c == '-' || c == '>' || c == 'W' || c == '#' || c == '+' || c == '$' || c == '%'
            || c == '&' || c == '"' || c == '^' || c == ':') ==> t is None,
{
    match c {
        '.' | '!' | '-' | '>' | 'W' => Some(FLOOR()),
        '#' | '+' => Some(WALL()),
        '$' => Some(TRANSLUCENT_WALL()),
        '%' => if random_below(rng, 2) == 0 {
            Some(WALL())
        } else {
            Some(TRANSLUCENT_WALL())
        },
        '&' => {
            let r = random_below(rng, 5);
            if r == 0 {
                Some(WALL())
            } else if r == 1 {
                Some(TRANSLUCENT_WALL())
            } else if r == 2 {
                Some(FOLIAGE())
            } else if r == 3 {
                Some(RUBBLE())
            } else {
                Some(FLOOR())
            }
        },
        '"' => Some(FOLIAGE()),
        '^' => Some(RUBBLE()),
        ':' => {
            let r = random_below(rng, 3);
            if r == 0 {
                Some(FLOOR())
            } else if r == 1 {
                Some(FOLIAGE())
            } else {
                Some(RUBBLE())
            }
        },
        _ => None,
    }
}

/// Whether text `t` can be turned a quarter at size `size`: it has at
/// least `size.y` lines, each at least `size.x` long.
fn turnable_text(t: &Vec<char>, size: Point) -> (b: bool)
    ensures
        b == turnable(t@, size),
{
    if size.x < 0 || size.y < 0 {
        return false;
    }
    let lines = lines_of(t);
    if (lines.len() as u64) < (size.y as u64) {
        return false;
    }
    let mut y: usize = 0;
    while y < size.y as usize
        invariant
            0 <= size.x,
            0 <= size.y,
            size.y <= lines@.len(),
            y <= size.y,
            lines@.len() == split_lines(t@).len(),
            forall|i: int| 0 <= i < lines@.len() ==> #[trigger] lines@[i]@ == split_lines(t@)[i],
            forall|i: int| 0 <= i < y ==> #[trigger] split_lines(t@)[i].len() >= size.x,
        decreases size.y - y,
    {
        if (lines[y].len() as u64) < (size.x as u64) {
            assert(lines@[y as int]@ == split_lines(t@)[y as int]);
            return false;
        }
        assert(lines@[y as int]@ == split_lines(t@)[y as int]);
        y = y + 1;
    }
    true
}

/// Whether the vault can be turned by `1 + 2 * r` quarters.
fn quarter_turnable(v: &Vault, r: i32) -> (b: bool)
    requires
        0 <= r <= 1,
    ensures
        b == if r == 0 { turnable(v.content@, v.size) } else { turnable(v.content@.reverse(), v.size) },
{
    let t = chars_of(v.content());
    if r == 0 {
        turnable_text(&t, v.size())
    } else {
        let mut rev: Vec<char> = Vec::new();
        let mut k: usize = t.len();
        while k > 0
            invariant
                k <= t@.len(),
                rev@ == t@.subrange(k as int, t@.len() as int).reverse(),
            decreases k,
        {
            k = k - 1;
            rev.push(t[k]);
            assert(rev@ =~= t@.subrange(k as int, t@.len() as int).reverse());
        }
        assert(t@.subrange(0, t@.len() as int) =~= t@);
        turnable_text(&rev, v.size())
    }
}

/// Whether `c` marks a vault place: a waypoint, an item place or a static
/// place.
pub open spec fn is_place_char(c: char) -> bool {
    c == 'W' || c == '!' || c == '>'
}

/// The number of place marks in `t`.
pub open spec fn place_count(t: Seq<char>) -> nat
    decreases t.len(),
{
    if t.len() == 0 {
        0
    } else {
        place_count(t.drop_last()) + if is_place_char(t.last()) { 1nat } else { 0nat }
    }
}

/// The column and row reached after the characters `t` of a vault: a
/// newline starts the next row.
pub open spec fn cell_after(t: Seq<char>) -> (int, int)
    decreases t.len(),
{
    if t.len() == 0 {
        (0, 0)
    } else {
        let c = cell_after(t.drop_last());
        if t.last() == '\n' {
            (0, c.1 + 1)
        } else {
            (c.0 + 1, c.1)
        }
    }
}

/// The map position of character `k` of vault content `t` placed with its
/// corner at `o`.
pub open spec fn vault_cell(t: Seq<char>, k: int, o: Point) -> Point {
    pt(o.x + cell_after(t.take(k)).0, o.y + cell_after(t.take(k)).1)
}

/// The kind of place that character `c` marks, if any.
pub open spec fn place_kind(c: char) -> Option<PlaceKind> {
    if c == 'W' {
        Some(PlaceKind::Waypoint)
    } else if c == '!' {
        Some(PlaceKind::Item)
    } else if c == '>' {
        Some(PlaceKind::Static)
    } else {
        None
    }
}

/// The places that vault content `t` placed at `o` marks, in order.
pub open spec fn places_of(t: Seq<char>, o: Point) -> Seq<VaultPlace>
    decreases t.len(),
{
    if t.len() == 0 {
        seq![]
    } else {
        let p = places_of(t.drop_last(), o);
        match place_kind(t.last()) {
            Some(kind) => p.push(VaultPlace { pos: vault_cell(t, t.len() - 1, o), kind, used: false }),
            None => p,
        }
    }
}

/// Dig vault `vi` into the map: each character of its content at its
/// position from the vault's corner marks a vault cell (but `?`), sets the
/// terrain it stands for on the map, and records the waypoints (`W`),
/// item places (`!`), static places (`>`) and entries (`+`, `-`, strictly
/// inside the map).
fn dig_vault(mg: &mut MapGenState, vi: &mut VaultInfo, rng: &mut StdRng)
    requires
        old(mg).wf(),
        0 <= old(vi).pos.x < MAP_WIDTH,
        0 <= old(vi).pos.y < MAP_HEIGHT,
        forall|k: int| 0 <= k < old(vi).entries@.len() ==> {
            let e = #[trigger] old(vi).entries@[k].pos;
            0 < e.x < MAP_WIDTH - 1 && 0 < e.y < MAP_HEIGHT - 1
        },
    ensures
        final(mg).wf(),
        final(mg).terrain == old(mg).terrain,
        final(mg).vaults == old(mg).vaults,
        final(mg).tunnel == old(mg).tunnel,
        final(vi).pos == old(vi).pos,
        final(vi).w == old(vi).w,
        final(vi).h == old(vi).h,
        final(vi).tunnels == old(vi).tunnels,
        final(vi).vault == old(vi).vault,
        forall|k: int| 0 <= k < final(vi).entries@.len() ==> {
            let e = #[trigger] final(vi).entries@[k].pos;
            0 < e.x < MAP_WIDTH - 1 && 0 < e.y < MAP_HEIGHT - 1
        },
        final(vi).places@.subrange(0, old(vi).places@.len() as int) == old(vi).places@,
        final(vi).places@.len() <= old(vi).places@.len() + place_count(old(vi).vault.content@),
        old(vi).vault.content@.len() <= 0x1000_0000 ==> final(vi).places@.len() == old(vi).places@.len()
            + place_count(old(vi).vault.content@),
        old(vi).vault.content@.len() <= 0x1000_0000 ==> final(vi).places@ == old(vi).places@ + places_of(
            old(vi).vault.content@,
            old(vi).pos,
        ),
        forall|i: int| 0 <= i < old(mg).vault_mask@.len() && old(mg).vault_mask@[i] ==> #[trigger] final(mg).vault_mask@[i],
        forall|i: int| 0 <= i < old(mg).item_place@.len() && old(mg).item_place@[i] ==> #[trigger] final(mg).item_place@[i],
        old(vi).vault.content@.len() <= 0x1000_0000 ==> forall|j: int|
            0 <= j < old(vi).vault.content@.len() && old(vi).vault.content@[j] != '\n' && old(vi).vault.content@[j] != '?'
                && spec_in_map(#[trigger] vault_cell(old(vi).vault.content@, j, old(vi).pos))
                ==> final(mg).vault_mask@[map_idx(vault_cell(old(vi).vault.content@, j, old(vi).pos))],
        old(vi).vault.content@.len() <= 0x1000_0000 ==> forall|j: int|
            0 <= j < old(vi).vault.content@.len() && (old(vi).vault.content@[j] == '!' || old(vi).vault.content@[j] == '>')
                && spec_in_map(#[trigger] vault_cell(old(vi).vault.content@, j, old(vi).pos))
                ==> final(mg).item_place@[map_idx(vault_cell(old(vi).vault.content@, j, old(vi).pos))],
{
    let t = chars_of(vi.vault.content());
    let px = vi.pos.x;
    let py = vi.pos.y;
    let mut x: i128 = 0;
    let mut y: i128 = 0;
    let mut k: usize = 0;
    while k < t.len()
        invariant
            mg.wf(),
            mg.terrain == old(mg).terrain,
            mg.vaults == old(mg).vaults,
            mg.tunnel == old(mg).tunnel,
            vi.pos == old(vi).pos,
            vi.w == old(vi).w,
            vi.h == old(vi).h,
            vi.tunnels == old(vi).tunnels,
            vi.vault == old(vi).vault,
            px == vi.pos.x,
            py == vi.pos.y,
            0 <= px < MAP_WIDTH,
            0 <= py < MAP_HEIGHT,
            k <= t@.len(),
            0 <= x <= k,
            0 <= y <= k,
            forall|j: int| 0 <= j < vi.entries@.len() ==> {
                let e = #[trigger] vi.entries@[j].pos;
                0 < e.x < MAP_WIDTH - 1 && 0 < e.y < MAP_HEIGHT - 1
            },
            t@ == old(vi).vault.content@,
            vi.places@.len() >= old(vi).places@.len(),
            vi.places@.subrange(0, old(vi).places@.len() as int) == old(vi).places@,
            vi.places@.len() <= old(vi).places@.len() + place_count(t@.take(k as int)),
            t@.len() <= 0x1000_0000 ==> vi.places@.len() == old(vi).places@.len() + place_count(t@.take(k as int)),
            (x as int, y as int) == cell_after(t@.take(k as int)),
            t@.len() <= 0x1000_0000 ==> vi.places@ == old(vi).places@ + places_of(t@.take(k as int), vi.pos),
            mg.vault_mask@.len() == old(mg).vault_mask@.len(),
            mg.item_place@.len() == old(mg).item_place@.len(),
            forall|i: int| 0 <= i < old(mg).vault_mask@.len() && old(mg).vault_mask@[i] ==> #[trigger] mg.vault_mask@[i],
            forall|i: int| 0 <= i < old(mg).item_place@.len() && old(mg).item_place@[i] ==> #[trigger] mg.item_place@[i],
            t@.len() <= 0x1000_0000 ==> forall|j: int|
                0 <= j < k && t@[j] != '\n' && t@[j] != '?' && spec_in_map(#[trigger] vault_cell(t@, j, vi.pos))
                    ==> mg.vault_mask@[map_idx(vault_cell(t@, j, vi.pos))],
            t@.len() <= 0x1000_0000 ==> forall|j: int|
                0 <= j < k && (t@[j] == '!' || t@[j] == '>') && spec_in_map(#[trigger] vault_cell(t@, j, vi.pos))
                    ==> mg.item_place@[map_idx(vault_cell(t@, j, vi.pos))],
        decreases t@.len() - k,
    {
        let c = t[k];
        let ghost k0 = k as int;
        proof {
            assert(t@.take(k + 1).drop_last() =~= t@.take(k as int));
            assert(t@.take(k + 1).last() == c);
            assert(t@.take(k + 1).take(k as int) =~= t@.take(k as int));
            assert(vault_cell(t@, k0, vi.pos) == vault_cell(t@.take(k + 1), k0, vi.pos));
        }
        k = k + 1;
        if c == '\n' {
            x = 0;
            y = y + 1;
            continue;
        }
        let qx: i128 = px as i128 + x;
        let qy: i128 = py as i128 + y;
        x = x + 1;
        if qx > i32::MAX as i128 || qy > i32::MAX as i128 {
            continue;
        }
        let q = Point::new(qx as i32, qy as i32);
        let inside = in_map(q);
        if inside && c != '?' {
            let idx = mg.idx(q);
            mg.vault_mask.set(idx, true);
        }
        if inside {
            match vault_terrain(c, rng) {
                Some(cell) => {
                    mg.terrain.set(q, cell);
                },
                None => {},
            }
        }
        if c == 'W' {
            vi.places.push(VaultPlace { pos: q, kind: PlaceKind::Waypoint, used: false });
        } else if c == '!' || c == '>' {
            let kind = if c == '!' {
                PlaceKind::Item
            } else {
                PlaceKind::Static
            };
            vi.places.push(VaultPlace { pos: q, kind, used: false });
            if inside {
                let idx = mg.idx(q);
                mg.item_place.set(idx, true);
            }
        } else if c == '+' || c == '-' {
            if q.x > 0 && q.x < MAP_WIDTH - 1 && q.y > 0 && q.y < MAP_HEIGHT - 1 {
                vi.entries.push(VaultEntry { pos: q, used: false });
            }
        }
    }
    proof {
        assert(t@.take(t@.len() as int) =~= t@);
    }
}

/// A position to try a vault at: anywhere but the last row and column; a
/// few cells around the map's centre; or within the leftmost or rightmost
/// quarter (the side drawn at random).
fn placement_pos(placement: Placement, rng: &mut StdRng) -> (p: Point)
    ensures
        0 <= p.x < MAP_WIDTH,
        0 <= p.y < MAP_HEIGHT,
        placement == Placement::Random ==> p.x < MAP_WIDTH - 1 && p.y < MAP_HEIGHT - 1,
        placement == Placement::Center ==> MAP_WIDTH / 2 - 4 <= p.x <= MAP_WIDTH / 2 && MAP_HEIGHT / 2 - 3 <= p.y
            <= MAP_HEIGHT / 2,
        placement == Placement::Edge ==> (p.x < MAP_WIDTH / 4 || 3 * MAP_WIDTH / 4 - 1 <= p.x) && p.y < MAP_HEIGHT - 1,
{
    match placement {
        Placement::Random => Point::new(
            random_below(rng, (MAP_WIDTH - 1) as u32) as i32,
            random_below(rng, (MAP_HEIGHT - 1) as u32) as i32,
        ),
        Placement::Center => Point::new(
            MAP_WIDTH / 2 - 4 + random_below(rng, 5) as i32,
            MAP_HEIGHT / 2 - 3 + random_below(rng, 4) as i32,
        ),
        Placement::Edge => {
            if random_below(rng, 2) == 0 {
                Point::new(
                    random_below(rng, (MAP_WIDTH / 4) as u32) as i32,
                    random_below(rng, (MAP_HEIGHT - 1) as u32) as i32,
                )
            } else {
                let x = 3 * MAP_WIDTH / 4 + random_below(rng, (MAP_WIDTH / 4) as u32) as i32 - 1;
                Point::new(x, random_below(rng, (MAP_HEIGHT - 1) as u32) as i32)
            }
        },
    }
}

/// Try to place the template `tpl` as a vault: at a position drawn for
/// the placement, turned and maybe reflected at random (quarter turns less
/// likely for vaults much wider than high), where it fits in the map with
/// a margin of one cell free of vault cells; the vault is then dug. A
/// template that does not parse, or whose lines a quarter turn drawn for
/// it would read past, is not placed.
fn try_place_vault(mg: &mut MapGenState, rng: &mut StdRng, tpl: &str, placement: Placement) -> (r: Option<VaultInfo>)
    requires
        old(mg).wf(),
    ensures
        final(mg).wf(),
        final(mg).vaults == old(mg).vaults,
        final(mg).tunnel == old(mg).tunnel,
        r matches Some(vi) ==> vault_ok(vi) && vi.tunnels == 0,
{
    let pos = placement_pos(placement, rng);
    if chars_of(tpl).len() >= i32::MAX as usize {
        return None;
    }
    let mut vault = match Vault::new(tpl) {
        Ok(v) => v,
        Err(_) => {
            return None;
        },
    };
    let w = vault.size().x;
    let h = vault.size().y;
    let mut drev: u32 = 2;
    let excess: i64 = w as i64 - h as i64 - 2;
    if excess > 0 {
        let extra: i64 = if excess < 4 { excess } else { 4 };
        drev = drev + extra as u32;
    }
    if random_below(rng, drev) == 0 {
        if random_below(rng, 2) == 0 {
            vault.reflect();
        }
        let r = random_below(rng, 2) as i32;
        if !quarter_turnable(&vault, r) {
            return None;
        }
        vault.rotate(1 + 2 * r);
    } else if random_below(rng, 2) == 0 {
        vault.reflect();
        let r = random_below(rng, 2) as i32;
        vault.rotate(2 * r);
    } else {
        let r = random_below(rng, 2) as i32;
        vault.rotate(2 * r);
    }
    let vw = vault.size().x;
    let vh = vault.size().y;
    if vw <= 0 || vh <= 0 {
        return None;
    }
    if MAP_WIDTH - pos.x < vw || MAP_HEIGHT - pos.y < vh {
        return None;
    }
    let mut i: i32 = pos.x - 1;
    while i <= pos.x + vw
        invariant
            mg.wf(),
            mg.vaults == old(mg).vaults,
            mg.tunnel == old(mg).tunnel,
            0 < vw,
            0 < vh,
            pos.x - 1 <= i <= pos.x + vw + 1,
            0 <= pos.x < MAP_WIDTH,
            pos.x + vw <= MAP_WIDTH,
            0 <= pos.y < MAP_HEIGHT,
            pos.y + vh <= MAP_HEIGHT,
        decreases pos.x + vw + 1 - i,
    {
        let mut j: i32 = pos.y - 1;
        while j <= pos.y + vh
            invariant
                mg.wf(),
                mg.vaults == old(mg).vaults,
                mg.tunnel == old(mg).tunnel,
                0 < vw,
                0 < vh,
                pos.x - 1 <= i <= pos.x + vw,
                pos.y - 1 <= j <= pos.y + vh + 1,
                0 <= pos.x < MAP_WIDTH,
                pos.x + vw <= MAP_WIDTH,
                0 <= pos.y < MAP_HEIGHT,
                pos.y + vh <= MAP_HEIGHT,
            decreases pos.y + vh + 1 - j,
        {
            let p = Point::new(i, j);
            if in_map(p) && mg.in_vault(p) {
                return None;
            }
            j = j + 1;
        }
        i = i + 1;
    }
    let mut vi = VaultInfo {
        pos,
        w: vw,
        h: vh,
        entries: Vec::new(),
        places: Vec::new(),
        vault,
        tunnels: 0,
    };
    dig_vault(mg, &mut vi, rng);
    Some(vi)
}

/// Place `n` vaults from the templates: for each, up to 500 templates drawn
/// at random, each tried up to ten times.
fn gen_vaults(mg: &mut MapGenState, rng: &mut StdRng, templates: &Vec<String>, n: usize, placement: Placement)
    requires
        old(mg).wf(),
        forall|k: int| 0 <= k < old(mg).vaults@.len() ==> (#[trigger] old(mg).vaults@[k]).tunnels == 0,
    ensures
        final(mg).wf(),
        final(mg).tunnel == old(mg).tunnel,
        old(mg).vaults@.len() <= final(mg).vaults@.len() <= old(mg).vaults@.len() + n,
        forall|k: int| 0 <= k < final(mg).vaults@.len() ==> (#[trigger] final(mg).vaults@[k]).tunnels == 0,
        final(mg).vaults@.subrange(0, old(mg).vaults@.len() as int) == old(mg).vaults@,
{
    if templates.len() == 0 {
        return;
    }
    let mut c: usize = 0;
    while c < n
        invariant
            mg.wf(),
            mg.tunnel == old(mg).tunnel,
            c <= n,
            old(mg).vaults@.len() <= mg.vaults@.len() <= old(mg).vaults@.len() + c,
            mg.vaults@.subrange(0, old(mg).vaults@.len() as int) == old(mg).vaults@,
            templates@.len() > 0,
            forall|k: int| 0 <= k < mg.vaults@.len() ==> (#[trigger] mg.vaults@[k]).tunnels == 0,
        decreases n - c,
    {
        let mut placed = false;
        let mut a: u32 = 0;
        while a < 500 && !placed
            invariant
                mg.wf(),
                mg.tunnel == old(mg).tunnel,
                c < n,
                !placed ==> mg.vaults@.len() <= old(mg).vaults@.len() + c,
                placed ==> mg.vaults@.len() <= old(mg).vaults@.len() + c + 1,
                old(mg).vaults@.len() <= mg.vaults@.len(),
                mg.vaults@.subrange(0, old(mg).vaults@.len() as int) == old(mg).vaults@,
                templates@.len() > 0,
                forall|k: int| 0 <= k < mg.vaults@.len() ==> (#[trigger] mg.vaults@[k]).tunnels == 0,
            decreases 500 - a,
        {
            let tpl = &templates[random_index(rng, templates.len())];
            let mut b: u32 = 0;
            while b < 10 && !placed
                invariant
                    mg.wf(),
                    mg.tunnel == old(mg).tunnel,
                    c < n,
                    !placed ==> mg.vaults@.len() <= old(mg).vaults@.len() + c,
                    placed ==> mg.vaults@.len() <= old(mg).vaults@.len() + c + 1,
                    old(mg).vaults@.len() <= mg.vaults@.len(),
                    mg.vaults@.subrange(0, old(mg).vaults@.len() as int) == old(mg).vaults@,
                    forall|k: int| 0 <= k < mg.vaults@.len() ==> (#[trigger] mg.vaults@[k]).tunnels == 0,
                decreases 10 - b,
            {
                match try_place_vault(mg, rng, tpl.as_str(), placement) {
                    Some(vi) => {
                        let ghost before = mg.vaults@;
                        mg.vaults.push(vi);
                        assert forall|k: int| 0 <= k < mg.vaults@.len() implies vault_ok(#[trigger] mg.vaults@[k])
                            && mg.vaults@[k].tunnels == 0 by {
                            if k < before.len() {
                                assert(mg.vaults@[k] == before[k]);
                            }
                        }
                        assert(mg.vaults@.subrange(0, old(mg).vaults@.len() as int) =~= before.subrange(
                            0,
                            old(mg).vaults@.len() as int,
                        ));
                        placed = true;
                    },
                    None => {},
                }
                b = b + 1;
            }
            a = a + 1;
        }
        c = c + 1;
    }
}

/// The distance of a vault's centre to the map's centre.
fn center_key(v: &VaultInfo) -> (d: i32)
    requires
        vault_ok(*v),
    ensures
        d == spec_manhattan(spec_vault_center(*v), pt(MAP_WIDTH / 2, MAP_HEIGHT / 2)),
{
    let c = vault_center(v);
    let dx: i32 = if c.x >= MAP_WIDTH / 2 { c.x - MAP_WIDTH / 2 } else { MAP_WIDTH / 2 - c.x };
    let dy: i32 = if c.y >= MAP_HEIGHT / 2 { c.y - MAP_HEIGHT / 2 } else { MAP_HEIGHT / 2 - c.y };
    dx + dy
}

/// The distance of a vault's centre to the map's centre.
pub open spec fn spec_center_key(v: VaultInfo) -> int {
    spec_manhattan(spec_vault_center(v), pt(MAP_WIDTH / 2, MAP_HEIGHT / 2))
}

/// Sort the vaults by the distance of their centres to the map's centre,
/// nearest first, keeping the order of equals.
fn sort_vaults(vaults: &mut Vec<VaultInfo>)
    requires
        forall|k: int| 0 <= k < old(vaults)@.len() ==> vault_ok(#[trigger] old(vaults)@[k]),
    ensures
        final(vaults)@.to_multiset() == old(vaults)@.to_multiset(),
        forall|a: int, b: int| 0 <= a <= b < final(vaults)@.len() ==> spec_center_key(#[trigger] final(vaults)@[a])
            <= spec_center_key(#[trigger] final(vaults)@[b]),
        final(vaults)@.len() == old(vaults)@.len(),
        forall|k: int| 0 <= k < final(vaults)@.len() ==> vault_ok(#[trigger] final(vaults)@[k]),
        (forall|j: int| 0 <= j < old(vaults)@.len() ==> (#[trigger] old(vaults)@[j]).tunnels == 0) ==> forall|k: int|
            0 <= k < final(vaults)@.len() ==> (#[trigger] final(vaults)@[k]).tunnels == 0,
{
    let n = vaults.len();
    let ghost mut src: Seq<int> = Seq::new(n as nat, |k: int| k);
    let mut i: usize = 1;
    while i < n
        invariant
            vaults@.len() == n,
            n == old(vaults)@.len(),
            src.len() == n,
            forall|k: int| 0 <= k < n ==> vault_ok(#[trigger] vaults@[k]),
            forall|k: int| 0 <= k < n ==> 0 <= #[trigger] src[k] < n && vaults@[k] == old(vaults)@[src[k]],
            i >= 1,
            vaults@.to_multiset() == old(vaults)@.to_multiset(),
            forall|a: int, b: int| 0 <= a <= b < i && b < n ==> spec_center_key(#[trigger] vaults@[a])
                <= spec_center_key(#[trigger] vaults@[b]),
        decreases n - i,
    {
        let ghost before = vaults@;
        let ghost sb = src;
        let v = vaults.remove(i);
        let key = center_key(&v);
        let mut j: usize = i;
        while j > 0 && center_key(&vaults[j - 1]) > key
            invariant
                j <= i < n,
                vaults@.len() == n - 1,
                vaults@ == before.remove(i as int),
                key == spec_center_key(v),
                forall|k: int| 0 <= k < n - 1 ==> vault_ok(#[trigger] vaults@[k]),
                forall|k: int| j <= k < i ==> spec_center_key(#[trigger] vaults@[k]) > key,
            decreases j,
        {
            j = j - 1;
        }
        let ghost r = vaults@;
        vaults.insert(j, v);
        proof {
            vstd::seq_lib::to_multiset_remove(before, i as int);
            vstd::seq_lib::to_multiset_insert(r, j as int, v);
            assert(before[i as int] == v);
            assert(vaults@ == r.insert(j as int, v));
            assert(vaults@.to_multiset() =~= before.to_multiset()) by {
                broadcast use vstd::multiset::group_multiset_axioms;
                broadcast use vstd::seq_lib::to_multiset_contains;
                assert(before.contains(v));
                assert(before.to_multiset().count(v) > 0);
            }
            assert forall|a: int, b: int| 0 <= a <= b < i + 1 && b < n implies spec_center_key(#[trigger] vaults@[a])
                <= spec_center_key(#[trigger] vaults@[b]) by {
                assert(forall|k: int| 0 <= k < i ==> #[trigger] r[k] == before[k]);
                let ra = if a < j { a } else if a == j { -1 } else { a - 1 };
                let rb = if b < j { b } else if b == j { -1 } else { b - 1 };
                if a != j && b != j {
                    assert(vaults@[a] == r[ra] && vaults@[b] == r[rb]);
                    assert(spec_center_key(before[ra]) <= spec_center_key(before[rb]));
                } else if a == j && b != j {
                    assert(vaults@[b] == r[rb]);
                    assert(spec_center_key(r[rb]) > key);
                } else if a != j && b == j {
                    assert(vaults@[a] == r[ra]);
                    if j > 0 {
                        assert(spec_center_key(r[j - 1]) <= key);
                        assert(spec_center_key(before[ra]) <= spec_center_key(before[j - 1]));
                    }
                }
            }
            src = sb.remove(i as int).insert(j as int, sb[i as int]);
            assert forall|k: int| 0 <= k < n implies 0 <= #[trigger] src[k] < n && vaults@[k] == old(vaults)@[src[k]] by {
                let r = before.remove(i as int);
                if k < j {
                    assert(vaults@[k] == r[k]);
                } else if k == j {
                    assert(vaults@[k] == before[i as int]);
                } else {
                    assert(vaults@[k] == r[k - 1]);
                }
            }
        }
        i = i + 1;
    }
    proof {
        if forall|j: int| 0 <= j < old(vaults)@.len() ==> (#[trigger] old(vaults)@[j]).tunnels == 0 {
            assert forall|k: int| 0 <= k < n implies (#[trigger] vaults@[k]).tunnels == 0 by {
                assert(0 <= src[k] < n && vaults@[k] == old(vaults)@[src[k]]);
            }
        }
    }
}

/// The vault indices other than none, sorted by the distance of their
/// centres to vault `vi`'s, nearest first, keeping index order among
/// equals.
fn indices_by_distance(vaults: &Vec<VaultInfo>, vi: usize) -> (v: Vec<usize>)
    requires
        vi < vaults@.len(),
        forall|k: int| 0 <= k < vaults@.len() ==> vault_ok(#[trigger] vaults@[k]),
    ensures
        v@.len() == vaults@.len(),
        forall|k: int| 0 <= k < v@.len() ==> #[trigger] v@[k] < vaults@.len(),
        forall|k: usize| k < vaults@.len() ==> #[trigger] v@.contains(k),
{
    let n = vaults.len();
    let mut v: Vec<usize> = Vec::new();
    let mut k: usize = 0;
    while k < n
        invariant
            k <= n,
            n == vaults@.len(),
            v@.len() == k,
            forall|m: int| 0 <= m < k ==> #[trigger] v@[m] < n,
            forall|m: int| 0 <= m < k ==> #[trigger] v@[m] == m,
        decreases n - k,
    {
        v.push(k);
        k = k + 1;
    }
    let ghost v0 = v@;
    proof {
        assert forall|k: usize| k < n implies #[trigger] v0.contains(k) by {
            assert(v0[k as int] == k);
        }
    }
    let mut i: usize = 1;
    while i < n
        invariant
            v@.len() == n,
            n == vaults@.len(),
            vi < n,
            forall|m: int| 0 <= m < n ==> #[trigger] v@[m] < n,
            forall|k: int| 0 <= k < vaults@.len() ==> vault_ok(#[trigger] vaults@[k]),
            v@.to_multiset() == v0.to_multiset(),
            forall|k: usize| k < n ==> #[trigger] v0.contains(k),
        decreases n - i,
    {
        let ghost before = v@;
        let e = v.remove(i);
        let key = vault_distance(&vaults[vi], &vaults[e]);
        let mut j: usize = i;
        while j > 0 && vault_distance(&vaults[vi], &vaults[v[j - 1]]) > key
            invariant
                j <= i < n,
                v@.len() == n - 1,
                vi < n,
                n == vaults@.len(),
                forall|m: int| 0 <= m < n - 1 ==> #[trigger] v@[m] < n,
                forall|k: int| 0 <= k < vaults@.len() ==> vault_ok(#[trigger] vaults@[k]),
            decreases j,
        {
            j = j - 1;
        }
        let ghost r = v@;
        v.insert(j, e);
        proof {
            vstd::seq_lib::to_multiset_remove(before, i as int);
            vstd::seq_lib::to_multiset_insert(r, j as int, e);
            assert(v@.to_multiset() =~= before.to_multiset()) by {
                broadcast use vstd::multiset::group_multiset_axioms;
                broadcast use vstd::seq_lib::to_multiset_contains;
                assert(before[i as int] == e);
                assert(before.contains(e));
            }
        }
        i = i + 1;
    }
    proof {
        assert forall|k: usize| k < n implies #[trigger] v@.contains(k) by {
            broadcast use vstd::seq_lib::to_multiset_contains;
            assert(v0.contains(k));
            assert(v0.to_multiset().count(k) > 0);
            assert(v@.to_multiset().count(k) > 0);
        }
    }
    v
}

/// A vault near vault `vi` to join it to: walking the vaults by distance,
/// nearest first, each other vault may be taken (past the nearest, only
/// within distance 40), stopping at random (always past the third).
/// `vi` itself when there is no other vault.
fn find_near_vault(mg: &MapGenState, rng: &mut StdRng, vi: usize) -> (r: usize)
    requires
        mg.wf(),
        vi < mg.vaults@.len(),
    ensures
        r < mg.vaults@.len(),
        mg.vaults@.len() <= 1 ==> r == vi,
        mg.vaults@.len() > 1 ==> r != vi,
{
    let nv = mg.vaults.len();
    if nv <= 1 {
        return vi;
    }
    let indices = indices_by_distance(&mg.vaults, vi);
    let mut result = vi;
    let mut rank: usize = 0;
    while rank < indices.len()
        invariant
            result < nv,
            nv == mg.vaults@.len(),
            vi < nv,
            mg.wf(),
            indices@.len() == nv,
            forall|m: int| 0 <= m < indices@.len() ==> #[trigger] indices@[m] < nv,
            rank <= nv,
            result == vi ==> forall|m: int| 0 <= m < rank ==> #[trigger] indices@[m] == vi,
        ensures
            result < nv,
            result == vi ==> forall|m: int| 0 <= m < nv ==> #[trigger] indices@[m] == vi,
        decreases indices@.len() - rank,
    {
        let j = indices[rank];
        if j == vi {
            rank = rank + 1;
            continue;
        }
        if result != vi && rank > 0 && vault_distance(&mg.vaults[vi], &mg.vaults[j]) > 40 {
            break;
        }
        result = j;
        if rank > 2 {
            break;
        }
        if rank == 2 && random_below(rng, 4) > 0 {
            break;
        }
        if random_below(rng, 2) == 0 {
            break;
        }
        rank = rank + 1;
    }
    proof {
        if result == vi {
            let other: usize = if vi == 0 { 1 } else { 0 };
            assert(indices@.contains(other));
            let m = choose|m: int| 0 <= m < indices@.len() && indices@[m] == other;
            assert(indices@[m] == vi);
        }
    }
    result
}

/// Mark entry `e` of vault `v` used and count one more tunnel for it.
fn use_entry(mg: &mut MapGenState, v: usize, e: usize)
    requires
        old(mg).wf(),
        v < old(mg).vaults@.len(),
        e < old(mg).vaults@[v as int].entries@.len(),
        old(mg).vaults@[v as int].tunnels < 1000,
    ensures
        final(mg).wf(),
        final(mg).terrain == old(mg).terrain,
        final(mg).tunnel == old(mg).tunnel,
        final(mg).vaults@.len() == old(mg).vaults@.len(),
        forall|k: int| 0 <= k < final(mg).vaults@.len() ==> (#[trigger] final(mg).vaults@[k]).tunnels
            == old(mg).vaults@[k].tunnels + if k == v { 1int } else { 0int },
        forall|k: int| 0 <= k < final(mg).vaults@.len() ==> (#[trigger] final(mg).vaults@[k]).entries@.len()
            == old(mg).vaults@[k].entries@.len(),
{
    let ghost before = mg.vaults@;
    let mut vi = mg.vaults.remove(v);
    let mut en = vi.entries.remove(e);
    en.used = true;
    let ghost ents = vi.entries@;
    vi.entries.insert(e, en);
    vi.tunnels = vi.tunnels + 1;
    proof {
        assert forall|k: int| 0 <= k < vi.entries@.len() implies {
            let p = #[trigger] vi.entries@[k].pos;
            0 < p.x < MAP_WIDTH - 1 && 0 < p.y < MAP_HEIGHT - 1
        } by {
            assert(vault_ok(before[v as int]));
            if k < e {
                assert(vi.entries@[k] == before[v as int].entries@[k]);
            } else if k > e {
                assert(vi.entries@[k] == before[v as int].entries@[k]);
            }
        }
    }
    mg.vaults.insert(v, vi);
    proof {
        assert forall|k: int| 0 <= k < mg.vaults@.len() implies vault_ok(#[trigger] mg.vaults@[k]) by {
            if k != v {
                assert(mg.vaults@[k] == before[k]);
            }
        }
        assert forall|k: int| 0 <= k < mg.vaults@.len() implies (#[trigger] mg.vaults@[k]).tunnels
            == before[k].tunnels + if k == v { 1int } else { 0int } && mg.vaults@[k].entries@.len() == before[k].entries@.len() by {
            if k != v {
                assert(mg.vaults@[k] == before[k]);
            }
        }
    }
}

/// Dig a tunnel between vaults `v1` and `v2`: from an entry of each
/// (unused ones first, drawn at random) along a cheapest tunnel path, the
/// impassable cells on it turned to floor or to the tunnel's fill (rubble,
/// foliage or mostly floor); the path becomes tunnel, both entries used,
/// and each vault counts one more tunnel. Nothing when the vaults are the
/// same, one has no entry, or no path is found.
fn connect_vault_pair(mg: &mut MapGenState, rng: &mut StdRng, pr: &mut PathRange, v1: usize, v2: usize)
    requires
        old(mg).wf(),
        old(pr).wf(),
        old(pr).spec_range() == map_range(),
        v1 < old(mg).vaults@.len(),
        v2 < old(mg).vaults@.len(),
        old(mg).vaults@[v1 as int].tunnels < 1000,
        old(mg).vaults@[v2 as int].tunnels < 999,
    ensures
        final(mg).wf(),
        final(pr).wf(),
        final(pr).spec_range() == map_range(),
        final(mg).terrain == old(mg).terrain,
        final(mg).vaults@.len() == old(mg).vaults@.len(),
        forall|k: int| 0 <= k < final(mg).vaults@.len() ==> old(mg).vaults@[k].tunnels <= (#[trigger] final(mg).vaults@[k]).tunnels
            <= old(mg).vaults@[k].tunnels + 2,
        v1 == v2 ==> final(mg).vaults == old(mg).vaults,
        forall|k: int| 0 <= k < final(mg).vaults@.len() && k != v1 && k != v2 ==> (#[trigger] final(mg).vaults@[k]).tunnels
            == old(mg).vaults@[k].tunnels,
        v1 != v2 ==> (final(mg).vaults@[v1 as int].tunnels == old(mg).vaults@[v1 as int].tunnels + 1
            <==> final(mg).vaults@[v2 as int].tunnels == old(mg).vaults@[v2 as int].tunnels + 1),
{
    if v1 == v2 {
        return;
    }
    if mg.vaults[v1].entries.len() == 0 || mg.vaults[v2].entries.len() == 0 {
        return;
    }
    let e1 = unused_entry(&mg.vaults[v1], rng);
    let e1_pos = mg.vaults[v1].entries[e1].pos;
    let e2 = unused_entry(&mg.vaults[v2], rng);
    let e2_pos = mg.vaults[v2].entries[e2].pos;
    let path = {
        let tp = TunnelPather { terrain: &mg.terrain, vault_mask: mg.vault_mask.as_slice(), tunnel: mg.tunnel.as_slice() };
        match pr.astar_path(&tp, e1_pos, e2_pos) {
            Some(p) => {
                if p.len() == 0 {
                    return;
                }
                p
            },
            None => {
                return;
            },
        }
    };
    let r = random_below(rng, 8);
    let fill = if r == 0 {
        RUBBLE()
    } else if r == 1 {
        FOLIAGE()
    } else {
        FLOOR()
    };
    let mut k: usize = 0;
    while k < path.len()
        invariant
            mg.wf(),
            mg.terrain == old(mg).terrain,
            mg.vaults == old(mg).vaults,
            forall|m: int| 0 <= m < path@.len() ==> map_range().spec_contains(#[trigger] path@[m]),
        decreases path@.len() - k,
    {
        let p = path[k];
        assert(map_range().spec_contains(path@[k as int]));
        let t = match terrain_at(&mg.terrain, p) {
            Some(t) => t,
            None => WALL(),
        };
        if !passable(t) {
            if random_below(rng, 2) == 0 {
                mg.terrain.set(p, FLOOR());
            } else {
                mg.terrain.set(p, fill);
            }
        }
        let idx = mg.idx(p);
        mg.tunnel.set(idx, true);
        k = k + 1;
    }
    let ghost m0 = mg.vaults@;
    use_entry(mg, v1, e1);
    let ghost m1 = mg.vaults@;
    use_entry(mg, v2, e2);
    proof {
        assert forall|k: int| 0 <= k < mg.vaults@.len() implies old(mg).vaults@[k].tunnels <= (#[trigger] mg.vaults@[k]).tunnels
            <= old(mg).vaults@[k].tunnels + 2 && (k != v1 && k != v2 ==> mg.vaults@[k].tunnels == old(mg).vaults@[k].tunnels) by {
            assert(m1[k].tunnels == m0[k].tunnels + if k == v1 { 1int } else { 0int });
            assert(mg.vaults@[k].tunnels == m1[k].tunnels + if k == v2 { 1int } else { 0int });
        }
        assert(m1[v1 as int].tunnels == m0[v1 as int].tunnels + 1);
        assert(mg.vaults@[v1 as int].tunnels == m1[v1 as int].tunnels);
        assert(m1[v2 as int].tunnels == m0[v2 as int].tunnels);
        assert(mg.vaults@[v2 as int].tunnels == m1[v2 as int].tunnels + 1);
    }
}

/// Join the vaults by tunnels: sorted by distance to the map's centre,
/// each vault is joined to the nearest of those before it; then three to
/// five more tunnels (four most often) join vaults with few tunnels to
/// vaults near them.
fn connect_all_vaults(mg: &mut MapGenState, rng: &mut StdRng, pr: &mut PathRange)
    requires
        old(mg).wf(),
        old(pr).wf(),
        old(pr).spec_range() == map_range(),
        old(mg).vaults@.len() <= 100,
        forall|k: int| 0 <= k < old(mg).vaults@.len() ==> (#[trigger] old(mg).vaults@[k]).tunnels == 0,
    ensures
        final(mg).wf(),
        final(pr).wf(),
        final(pr).spec_range() == map_range(),
        final(mg).terrain == old(mg).terrain,
        final(mg).vaults@.len() == old(mg).vaults@.len(),
{
    sort_vaults(&mut mg.vaults);
    let nv = mg.vaults.len();
    let mut i: usize = 1;
    while i < nv
        invariant
            mg.wf(),
            pr.wf(),
            pr.spec_range() == map_range(),
            mg.terrain == old(mg).terrain,
            mg.vaults@.len() == nv,
            nv <= 100,
            1 <= i,
            i <= nv || nv == 0,
            forall|k: int| 0 <= k < nv ==> (#[trigger] mg.vaults@[k]).tunnels <= 2 * i,
        decreases nv - i,
    {
        let nearest = find_nearest_connected(&mg.vaults, i);
        connect_vault_pair(mg, rng, pr, i, nearest);
        i = i + 1;
    }
    let extra: usize = match random_below(rng, 6) {
        0 => 3,
        1 => 5,
        _ => 4,
    };
    let mut count: usize = 0;
    let mut n: i32 = 0;
    while n < 2
        invariant
            mg.wf(),
            pr.wf(),
            pr.spec_range() == map_range(),
            mg.terrain == old(mg).terrain,
            mg.vaults@.len() == nv,
            nv <= 100,
            0 <= n <= 2,
            count <= extra <= 5,
            forall|k: int| 0 <= k < nv ==> (#[trigger] mg.vaults@[k]).tunnels <= 2 * nv + 2 * count + 2,
        decreases 2 - n,
    {
        let mut i: usize = 0;
        while i < nv
            invariant
                mg.wf(),
                pr.wf(),
                pr.spec_range() == map_range(),
                mg.terrain == old(mg).terrain,
                mg.vaults@.len() == nv,
                nv <= 100,
                0 <= n < 2,
                count <= extra <= 5,
                forall|k: int| 0 <= k < nv ==> (#[trigger] mg.vaults@[k]).tunnels <= 2 * nv + 2 * count + 2,
            decreases nv - i,
        {
            if count >= extra {
                break;
            }
            if mg.vaults[i].tunnels > n + 1 {
                i = i + 1;
                continue;
            }
            let near = find_near_vault(mg, rng, i);
            if near != i {
                connect_vault_pair(mg, rng, pr, i, near);
                count = count + 1;
            }
            i = i + 1;
        }
        n = n + 1;
    }
}

/// The number of positions of row `y` before column `x` labelled `l`.
pub open spec fn cc_row_count(pr: PathRange, l: usize, y: int, x: int) -> nat
    decreases x,
{
    if x <= 0 {
        0
    } else {
        cc_row_count(pr, l, y, x - 1) + if pr.spec_cc_at(pt(x - 1, y)) == Some(l) { 1nat } else { 0nat }
    }
}

/// The number of map positions of the rows before `y` labelled `l`.
pub open spec fn cc_count(pr: PathRange, l: usize, y: int) -> nat
    decreases y,
{
    if y <= 0 {
        0
    } else {
        cc_count(pr, l, y - 1) + cc_row_count(pr, l, y - 1, MAP_WIDTH as int)
    }
}

/// Wall off the map positions outside the connected component of `seed`
/// (as the last connected-components computation of `pr` labelled them;
/// all of them when `seed` is unlabelled). Returns the number of positions
/// kept.
fn keep_connected(terrain: &RlGrid, pr: &PathRange, seed: Point, wall: RlCell) -> (n: usize)
    requires
        pr.wf(),
        terrain@ == map_range(),
    ensures
        n <= MAP_WIDTH * MAP_HEIGHT,
        pr.spec_cc_at(seed) is None ==> n == 0,
        pr.spec_cc_at(seed) matches Some(l) ==> n == cc_count(*pr, l, MAP_HEIGHT as int),
{
    let id = pr.cc_at(seed);
    let mut n: usize = 0;
    let mut y: i32 = 0;
    while y < MAP_HEIGHT
        invariant
            0 <= y <= MAP_HEIGHT,
            n <= y * MAP_WIDTH,
            pr.wf(),
            id == pr.spec_cc_at(seed),
            id is None ==> n == 0,
            id matches Some(l) ==> n == cc_count(*pr, l, y as int),
            terrain@ == map_range(),
        decreases MAP_HEIGHT - y,
    {
        let mut x: i32 = 0;
        while x < MAP_WIDTH
            invariant
                0 <= x <= MAP_WIDTH,
                0 <= y < MAP_HEIGHT,
                n <= y * MAP_WIDTH + x,
                pr.wf(),
                id == pr.spec_cc_at(seed),
                id is None ==> n == 0,
                id matches Some(l) ==> n == cc_count(*pr, l, y as int) + cc_row_count(*pr, l, y as int, x as int),
                terrain@ == map_range(),
            decreases MAP_WIDTH - x,
        {
            let q = Point::new(x, y);
            let keep = match id {
                Some(l) => pr.cc_at(q) == Some(l),
                None => false,
            };
            if keep {
                n = n + 1;
            } else {
                terrain.set(q, wall);
            }
            x = x + 1;
        }
        y = y + 1;
    }
    n
}

/// The number of attempts at a level that [`generate_map`] makes.
pub const MAP_ATTEMPTS: u32 = 1000;

/// A complete level: attempts (see [`try_generate_map`]) are made until
/// one succeeds, [`MAP_ATTEMPTS`] of them at most (an attempt fails only
/// by the draws of the random generator, or for want of vault templates);
/// `None` when they all failed.
pub fn generate_map(rng: &mut StdRng, pr: &mut PathRange, small_vaults: &str, big_vaults: &str) -> (r: Option<(RlGrid, Vec<Point>, Vec<Point>)>)
    requires
        old(pr).wf(),
        old(pr).spec_range() == map_range(),
    ensures
        final(pr).wf(),
        final(pr).spec_range() == map_range(),
        r matches Some((terrain, waypoints, spawns)) ==> {
            &&& terrain@ == map_range()
            &&& waypoints@.len() > 0
            &&& forall|k: int| 0 <= k < waypoints@.len() ==> spec_in_map(#[trigger] waypoints@[k])
            &&& spawns@.len() <= 20
            &&& forall|k: int| 0 <= k < spawns@.len() ==> spec_in_map(#[trigger] spawns@[k])
        },
{
    let mut n: u32 = 0;
    while n < MAP_ATTEMPTS
        invariant
            pr.wf(),
            pr.spec_range() == map_range(),
        decreases MAP_ATTEMPTS - n,
    {
        let r = try_generate_map(rng, pr, small_vaults, big_vaults);
        if r.is_some() {
            return r;
        }
        n = n + 1;
    }
    None
}

/// One attempt at a complete level: a cave with foliage, one big and one
/// small vault at the centre and at an edge (which at which drawn at
/// random), one more big and four or five more small vaults anywhere, all
/// joined by tunnels; the waypoints are the passable waypoint places of the
/// vaults; the part of the map connected to a random waypoint is kept, the
/// rest walled; and up to twenty random floor positions are drawn as spawn
/// points. Returns the terrain, the waypoints and the spawn points, or
/// `None` when no waypoint is passable or fewer than a thousand positions
/// are connected. `small_vaults` and
/// `big_vaults` hold the vault templates, separated by blank lines.
pub fn try_generate_map(rng: &mut StdRng, pr: &mut PathRange, small_vaults: &str, big_vaults: &str) -> (r: Option<(RlGrid, Vec<Point>, Vec<Point>)>)
    requires
        old(pr).wf(),
        old(pr).spec_range() == map_range(),
    ensures
        final(pr).wf(),
        final(pr).spec_range() == map_range(),
        r matches Some((terrain, waypoints, spawns)) ==> {
            &&& terrain@ == map_range()
            &&& waypoints@.len() > 0
            &&& forall|k: int| 0 <= k < waypoints@.len() ==> spec_in_map(#[trigger] waypoints@[k])
            &&& spawns@.len() <= 20
            &&& forall|k: int| 0 <= k < spawns@.len() ==> spec_in_map(#[trigger] spawns@[k])
        },
{
    let terrain = RlGrid::new(MAP_WIDTH, MAP_HEIGHT);
    terrain.fill(WALL());
    let mut mg = MapGenState::new(terrain);
    gen_cellular_automata(&mut mg, rng);
    gen_foliage(&mut mg, rng);
    let small_templates = split_vaults(small_vaults);
    let big_templates = split_vaults(big_vaults);
    let big_center = random_below(rng, 2) == 0;
    if big_center {
        gen_vaults(&mut mg, rng, &big_templates, 1, Placement::Center);
        gen_vaults(&mut mg, rng, &small_templates, 1, Placement::Edge);
    } else {
        gen_vaults(&mut mg, rng, &big_templates, 1, Placement::Edge);
        gen_vaults(&mut mg, rng, &small_templates, 1, Placement::Center);
    }
    gen_vaults(&mut mg, rng, &big_templates, 1, Placement::Random);
    let n_small: usize = 4 + random_below(rng, 2) as usize;
    gen_vaults(&mut mg, rng, &small_templates, n_small, Placement::Random);
    connect_all_vaults(&mut mg, rng, pr);
    let mut waypoints: Vec<Point> = Vec::new();
    let mut i: usize = 0;
    while i < mg.vaults.len()
        invariant
            mg.wf(),
            forall|k: int| 0 <= k < waypoints@.len() ==> spec_in_map(#[trigger] waypoints@[k]),
        decreases mg.vaults@.len() - i,
    {
        let mut j: usize = 0;
        while j < mg.vaults[i].places.len()
            invariant
                mg.wf(),
                i < mg.vaults@.len(),
                forall|k: int| 0 <= k < waypoints@.len() ==> spec_in_map(#[trigger] waypoints@[k]),
            decreases mg.vaults@[i as int].places@.len() - j,
        {
            let pl = &mg.vaults[i].places[j];
            if pl.kind == PlaceKind::Waypoint {
                let t = match terrain_at(&mg.terrain, pl.pos) {
                    Some(t) => t,
                    None => WALL(),
                };
                if passable(t) {
                    waypoints.push(pl.pos);
                }
            }
            j = j + 1;
        }
        i = i + 1;
    }
    if waypoints.len() == 0 {
        return None;
    }
    let seed = waypoints[random_index(rng, waypoints.len())];
    {
        let t = &mg.terrain;
        let pass = |p: Point| -> (b: bool)
            {
                match terrain_at(t, p) {
                    Some(c) => passable(c),
                    None => false,
                }
            };
        let _ = pr.cc_map(&MappingPath::new(pass), seed);
    }
    let rl_mg = MapGen::with_grid(mg.terrain.clone(), os_seeded_rng());
    let ntiles = keep_connected(&rl_mg.grid, pr, seed, WALL());
    let _ = mg.terrain.copy_from(&rl_mg.grid);
    if ntiles < 1000 {
        return None;
    }
    let mut spawns: Vec<Point> = Vec::new();
    let mut k: u32 = 0;
    while k < 20
        invariant
            k <= 20,
            spawns@.len() <= k,
            forall|m: int| 0 <= m < spawns@.len() ==> spec_in_map(#[trigger] spawns@[m]),
        decreases 20 - k,
    {
        match random_passable(&mg.terrain, rng) {
            Some(p) => {
                spawns.push(p);
            },
            None => {},
        }
        k = k + 1;
    }
    Some((mg.terrain, waypoints, spawns))
}

} // verus!
