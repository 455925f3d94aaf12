//! Map generation for roguelike games: caves carved by random walks, and
//! caves grown by cellular automata.
use vstd::prelude::*;

use rand::rngs::StdRng;
use rand::Rng;
use rand::SeedableRng;

use crate::geom::{Point, Range, pt, max_int};
use crate::rl::grid::{Cell, Grid};

verus! {

#[verifier::external_type_specification]
#[verifier::external_body]
pub struct ExStdRng(StdRng);

/// `Rng::random_range(0..n)` on a `StdRng`: a random number below `n`.
#[verifier::external_body]
pub(crate) fn random_below(rng: &mut StdRng, n: u32) -> (r: u32)
    requires
        n > 0,
    ensures
        r < n,
{
    rng.random_range(0..n)
}

/// `Rng::random_range(0..n)` on a `StdRng` for an index: a random number
/// below `n`.
#[verifier::external_body]
pub(crate) fn random_index(rng: &mut StdRng, n: usize) -> (r: usize)
    requires
        n > 0,
    ensures
        r < n,
{
    rng.random_range(0..n)
}

/// `StdRng::try_from_os_rng`: a generator seeded from the operating
/// system, or `None` when the system gives no randomness. Nothing is stated
/// of the seed.
#[verifier::external_body]
fn try_os_rng() -> Option<StdRng> {
    StdRng::try_from_os_rng().ok()
}

/// `StdRng::seed_from_u64`: a generator seeded with `seed`.
#[verifier::external_body]
fn rng_from_seed(seed: u64) -> StdRng {
    StdRng::seed_from_u64(seed)
}

/// The seed used when the operating system gives no randomness.
pub const FALLBACK_SEED: u64 = 0x5eed_9e37_79b9_7f4a;

/// A generator seeded from the operating system; when that fails, one
/// seeded with [`FALLBACK_SEED`], so that a game can still be played.
pub(crate) fn os_seeded_rng() -> StdRng {
    match try_os_rng() {
        Some(r) => r,
        None => rng_from_seed(FALLBACK_SEED),
    }
}

/// `Rng::random::<u64>()` on a `StdRng`: 64 random bits.
#[verifier::external_body]
fn random_u64(rng: &mut StdRng) -> (r: u64) {
    rng.random()
}

/// Chooses a random neighbour for random-walk cave generation.
/// Implemented by the users of the library.
pub trait RandomWalker {
    /// A random neighbour of `p`, which has room around it on both axes.
    fn neighbor(&self, p: Point, rng: &mut StdRng) -> Point
        requires
            i32::MIN < p.x < i32::MAX,
            i32::MIN < p.y < i32::MAX,
    ;
}

/// A walker that steps to one of the four orthogonal neighbours.
pub struct FourDirectionWalker;

impl RandomWalker for FourDirectionWalker {
    /// One orthogonal step, in a random direction.
    fn neighbor(&self, p: Point, rng: &mut StdRng) -> (q: Point)
        ensures
            q == pt(p.x + 1, p.y as int) || q == pt(p.x - 1, p.y as int) || q == pt(p.x as int, p.y + 1) || q
                == pt(p.x as int, p.y - 1),
    {
        match random_below(rng, 4) {
            0 => Point::new(p.x + 1, p.y),
            1 => Point::new(p.x - 1, p.y),
            2 => Point::new(p.x, p.y + 1),
            _ => Point::new(p.x, p.y - 1),
        }
    }
}

/// A rule for one iteration of cellular automata smoothing.
#[derive(Debug, Clone, Copy)]
pub struct CellularAutomataRule {
    /// A cell with at least this many walls among its 8 neighbours becomes
    /// a wall.
    pub w_cutoff1: i32,
    /// A cell with at most this many walls within distance two (24 cells)
    /// becomes a wall.
    pub w_cutoff2: i32,
    /// Whether cells outside the grid count as walls.
    pub walls_out_of_range: bool,
    /// How many times to apply this rule.
    pub reps: usize,
}

impl Default for CellularAutomataRule {
    fn default() -> (r: CellularAutomataRule)
        ensures
            r.w_cutoff1 == 5,
            r.w_cutoff2 == 2,
            r.walls_out_of_range,
            r.reps == 4,
    {
        CellularAutomataRule { w_cutoff1: 5, w_cutoff2: 2, walls_out_of_range: true, reps: 4 }
    }
}

/// Whether a grid's cells can be counted and addressed in `i32`, with a
/// margin of two cells around it, and four times its area (a random walk's
/// step limit) fits in a 32-bit `usize`.
pub open spec fn mapgen_grid_ok(g: Range) -> bool {
    &&& 0 <= g.min.x <= g.max.x
    &&& 0 <= g.min.y <= g.max.y
    &&& g.max.x <= 0x2000_0000
    &&& g.max.y <= 0x2000_0000
    &&& g.spec_width() * g.spec_height() <= 0x3fff_ffff
}

/// A map generator working on a grid of cells.
pub struct MapGen {
    pub rng: StdRng,
    pub grid: Grid,
}

impl MapGen {
    /// A generator for the given grid, drawing from `rng`.
    pub fn with_grid(grid: Grid, rng: StdRng) -> (m: MapGen)
        ensures
            m.grid@ == grid@,
    {
        MapGen { rng, grid }
    }

    /// Carve a cave by random walks: `walks` walks from the centre of the
    /// grid, each of at most four times the grid's area steps, set each
    /// cell they visit to `cell`, counting those that were not `cell`
    /// before, until `target` cells were carved. A step that would leave
    /// the grid stays put. Returns the number of cells carved. The cells
    /// of the grid are its own, which its contract does not state, so
    /// neither is which cells are carved.
    pub fn random_walk_cave<W: RandomWalker>(&mut self, walker: &W, cell: Cell, target: usize, walks: usize) -> (carved: usize)
        requires
            mapgen_grid_ok(old(self).grid@),
        ensures
            carved <= target,
            final(self).grid@ == old(self).grid@,
    {
        let sz = self.grid.size();
        let w: i32 = sz.x;
        let h: i32 = sz.y;
        proof {
            assert(0 <= w * h <= 0x3fff_ffff);
        }
        let total: usize = (w * h) as usize;
        let bounds = self.grid.bounds();
        let mut carved: usize = 0;
        let start = Point::new(bounds.min.x + w / 2, bounds.min.y + h / 2);
        let mut k: usize = 0;
        while k < walks
            invariant
                mapgen_grid_ok(self.grid@),
                bounds == self.grid@,
                self.grid@ == old(self).grid@,
                total <= 0x3fff_ffff,
                carved <= target,
                start.x == bounds.min.x + w / 2,
                start.y == bounds.min.y + h / 2,
                w == bounds.spec_width(),
                h == bounds.spec_height(),
            decreases walks - k,
        {
            let mut pos = start;
            let step_limit: usize = total * 4;
            let mut s: usize = 0;
            while s < step_limit
                invariant
                    mapgen_grid_ok(self.grid@),
                    bounds == self.grid@,
                    self.grid@ == old(self).grid@,
                    carved <= target,
                    pos == start || bounds.spec_contains(pos),
                    start.x == bounds.min.x + w / 2,
                    start.y == bounds.min.y + h / 2,
                    w == bounds.spec_width(),
                    h == bounds.spec_height(),
                decreases step_limit - s,
            {
                if carved >= target {
                    return carved;
                }
                if self.grid.at(pos) != Some(cell) {
                    self.grid.set(pos, cell);
                    carved = carved + 1;
                }
                let next = walker.neighbor(pos, &mut self.rng);
                if bounds.contains(next) {
                    pos = next;
                }
                s = s + 1;
            }
            k = k + 1;
        }
        carved
    }

    /// The number of positions (`center.x + k`, `center.y + dy`), `k` from
    /// `-r` up to `dx`, the centre excluded, that lie inside the grid when
    /// `inside`, else outside it.
    pub open spec fn ring_row_count(&self, center: Point, r: int, dy: int, dx: int, inside: bool) -> nat
        decreases dx + r,
    {
        if dx <= -r {
            0
        } else {
            self.ring_row_count(center, r, dy, dx - 1, inside) + if !(dx - 1 == 0 && dy == 0) && self.grid.has(
                pt(center.x + dx - 1, center.y + dy),
            ) == inside {
                1nat
            } else {
                0nat
            }
        }
    }

    /// The number of positions within distance `r` of `center` on the rows
    /// up to `dy`, the centre excluded, that lie inside the grid when
    /// `inside`, else outside it.
    pub open spec fn ring_count(&self, center: Point, r: int, dy: int, inside: bool) -> nat
        decreases dy + r,
    {
        if dy <= -r {
            0
        } else {
            self.ring_count(center, r, dy - 1, inside) + self.ring_row_count(center, r, dy - 1, r + 1, inside)
        }
    }

    /// Grow a cave by cellular automata: each cell is first a wall when 53
    /// random bits fall below `wall_threshold` (so with probability
    /// `wall_threshold / 2^53`), ground otherwise; then each rule is
    /// applied its number of times to all cells at once, as
    /// [`next_generation`](Self::next_generation) says. Returns the number
    /// of ground cells. The cells of the grid are its own, which its
    /// contract does not state; the map is worked on as a vector of cells
    /// and written to the grid at the end.
    pub fn cellular_automata_cave(&mut self, wall: Cell, ground: Cell, wall_threshold: u64, rules: &Vec<CellularAutomataRule>) -> (n: usize)
        requires
            mapgen_grid_ok(old(self).grid@),
        ensures
            n <= old(self).grid@.spec_width() * old(self).grid@.spec_height(),
            final(self).grid@ == old(self).grid@,
            exists|init: Seq<Cell>|
                #![trigger run_rules(init, old(self).grid@.spec_width(), old(self).grid@.spec_height(), wall, ground, rules@)]
                init.len() == old(self).grid@.spec_width() * old(self).grid@.spec_height() && (forall|i: int|
                    0 <= i < init.len() ==> #[trigger] init[i] == wall || init[i] == ground) && (wall_threshold == 0
                    ==> forall|i: int| 0 <= i < init.len() ==> #[trigger] init[i] == ground) && (wall_threshold
                    >= 0x20_0000_0000_0000 ==> forall|i: int| 0 <= i < init.len() ==> #[trigger] init[i] == wall)
                    && n == count_cell(
                    run_rules(init, old(self).grid@.spec_width(), old(self).grid@.spec_height(), wall, ground, rules@),
                    ground,
                ),
    {
        let bounds = self.grid.bounds();
        let sz = self.grid.size();
        let w: i32 = sz.x;
        let h: i32 = sz.y;
        proof {
            assert(0 <= w * h <= 0x3fff_ffff);
        }
        let n: usize = (w * h) as usize;
        // Random initialisation, row by row.
        let mut cells: Vec<Cell> = Vec::new();
        let mut i: usize = 0;
        while i < n
            invariant
                cells@.len() == i,
                i <= n,
                forall|k: int| 0 <= k < i ==> #[trigger] cells@[k] == wall || cells@[k] == ground,
                wall_threshold == 0 ==> forall|k: int| 0 <= k < i ==> #[trigger] cells@[k] == ground,
                wall_threshold >= 0x20_0000_0000_0000 ==> forall|k: int| 0 <= k < i ==> #[trigger] cells@[k] == wall,
                mapgen_grid_ok(self.grid@),
                bounds == self.grid@,
                self.grid@ == old(self).grid@,
                w == bounds.spec_width(),
                h == bounds.spec_height(),
                n == w * h,
            decreases n - i,
        {
            let bits: u64 = random_u64(&mut self.rng);
            let r: u64 = bits >> 11u64;
            assert(r < 0x20_0000_0000_0000) by (bit_vector)
                requires
                    r == bits >> 11u64,
            ;
            if r < wall_threshold {
                cells.push(wall);
            } else {
                cells.push(ground);
            }
            i = i + 1;
        }
        let ghost init: Seq<Cell> = cells@;
        // The rules, each generation computed into a scratch map first.
        let mut scratch: Vec<Cell> = Vec::new();
        let mut i: usize = 0;
        while i < n
            invariant
                scratch@.len() == i,
                i <= n,
            decreases n - i,
        {
            scratch.push(Cell(0));
            i = i + 1;
        }
        let mut ri: usize = 0;
        while ri < rules.len()
            invariant
                mapgen_grid_ok(self.grid@),
                bounds == self.grid@,
                self.grid@ == old(self).grid@,
                w == bounds.spec_width(),
                h == bounds.spec_height(),
                n == w * h,
                scratch@.len() == n,
                cells@.len() == n,
                ri <= rules@.len(),
                cells@ == run_rules(init, w as int, h as int, wall, ground, rules@.take(ri as int)),
            decreases rules@.len() - ri,
        {
            let rule = rules[ri];
            let mut rep: usize = 0;
            while rep < rule.reps
                invariant
                    mapgen_grid_ok(self.grid@),
                    bounds == self.grid@,
                    self.grid@ == old(self).grid@,
                    w == bounds.spec_width(),
                    h == bounds.spec_height(),
                    n == w * h,
                    scratch@.len() == n,
                    cells@.len() == n,
                    rep <= rule.reps,
                    cells@ == run_rule(
                        run_rules(init, w as int, h as int, wall, ground, rules@.take(ri as int)),
                        w as int,
                        h as int,
                        wall,
                        ground,
                        rule,
                        rep as nat,
                    ),
                decreases rule.reps - rep,
            {
                Self::next_generation(&cells, &mut scratch, w, h, wall, ground, rule);
                std::mem::swap(&mut cells, &mut scratch);
                rep = rep + 1;
            }
            proof {
                assert(rules@.take(ri + 1).drop_last() =~= rules@.take(ri as int));
                assert(rules@.take(ri + 1).last() == rule);
            }
            ri = ri + 1;
        }
        proof {
            assert(rules@.take(rules@.len() as int) =~= rules@);
        }
        let ghost fin: Seq<Cell> = cells@;
        // Write the map to the grid.
        let mut y: i32 = bounds.min.y;
        while y < bounds.max.y
            invariant
                mapgen_grid_ok(self.grid@),
                bounds == self.grid@,
                self.grid@ == old(self).grid@,
                w == bounds.spec_width(),
                h == bounds.spec_height(),
                cells@.len() == w * h,
                cells@ == fin,
                bounds.min.y <= y <= bounds.max.y,
            decreases bounds.max.y - y,
        {
            let mut x: i32 = bounds.min.x;
            while x < bounds.max.x
                invariant
                    mapgen_grid_ok(self.grid@),
                    bounds == self.grid@,
                    self.grid@ == old(self).grid@,
                    w == bounds.spec_width(),
                    h == bounds.spec_height(),
                    cells@.len() == w * h,
                    cells@ == fin,
                    bounds.min.y <= y < bounds.max.y,
                    bounds.min.x <= x <= bounds.max.x,
                decreases bounds.max.x - x,
            {
                proof {
                    lemma_row_index(x - bounds.min.x, y - bounds.min.y, w as int, h as int);
                }
                let idx: usize = ((y - bounds.min.y) * w + (x - bounds.min.x)) as usize;
                self.grid.set(Point::new(x, y), cells[idx]);
                x = x + 1;
            }
            y = y + 1;
        }
        // Count the ground cells.
        let mut count: usize = 0;
        let mut i: usize = 0;
        while i < n
            invariant
                cells@.len() == n,
                i <= n,
                count <= i,
                count == count_cell(cells@.take(i as int), ground),
            decreases n - i,
        {
            proof {
                assert(cells@.take(i + 1).drop_last() =~= cells@.take(i as int));
            }
            if cells[i] == ground {
                count = count + 1;
            }
            i = i + 1;
        }
        proof {
            assert(cells@.take(n as int) =~= cells@);
            assert(init.len() == w * h);
        }
        count
    }

    /// The number of walls within distance `radius` of `center` (the centre
    /// excluded) in the `w` by `h` map `cells`, row by row; positions
    /// outside the map count as walls when `walls_out_of_range` holds.
    fn count_walls_ring(cells: &Vec<Cell>, w: i32, h: i32, center: Point, radius: i32, wall: Cell, walls_out_of_range: bool) -> (count: i32)
        requires
            1 <= radius <= 2,
            0 <= w <= 0x2000_0000,
            0 <= h <= 0x2000_0000,
            w * h <= 0x3fff_ffff,
            cells@.len() == w * h,
            0 <= center.x < w,
            0 <= center.y < h,
        ensures
            0 <= count <= 24,
            count == walls_within(cells@, w as int, h as int, center.x as int, center.y as int, radius as int, wall, walls_out_of_range),
    {
        let mut count: i32 = 0;
        let mut dy: i32 = -radius;
        while dy <= radius
            invariant
                count == ring_walls(cells@, w as int, h as int, center.x as int, center.y as int, radius as int, dy as int, wall, walls_out_of_range),
                1 <= radius <= 2,
                -radius <= dy <= radius + 1,
                0 <= w <= 0x2000_0000,
                0 <= h <= 0x2000_0000,
                w * h <= 0x3fff_ffff,
                cells@.len() == w * h,
                0 <= center.x < w,
                0 <= center.y < h,
                0 <= count <= 5 * (dy + radius) - (if dy > 0 { 1int } else { 0int }),
            decreases radius + 1 - dy,
        {
            let mut dx: i32 = -radius;
            while dx <= radius
                invariant
                    count == ring_walls(cells@, w as int, h as int, center.x as int, center.y as int, radius as int, dy as int, wall, walls_out_of_range)
                        + row_walls(cells@, w as int, h as int, center.x as int, center.y as int, radius as int, dy as int, dx as int, wall, walls_out_of_range),
                    1 <= radius <= 2,
                    -radius <= dy <= radius,
                    -radius <= dx <= radius + 1,
                    0 <= w <= 0x2000_0000,
                    0 <= h <= 0x2000_0000,
                    w * h <= 0x3fff_ffff,
                    cells@.len() == w * h,
                    0 <= center.x < w,
                    0 <= center.y < h,
                    0 <= count <= 5 * (dy + radius) + (dx + radius) - (if dy > 0 || (dy == 0 && dx > 0) { 1int } else { 0int }),
                decreases radius + 1 - dx,
            {
                if !(dx == 0 && dy == 0) {
                    let px: i32 = center.x + dx;
                    let py: i32 = center.y + dy;
                    let is_wall: bool = if 0 <= px && px < w && 0 <= py && py < h {
                        proof {
                            lemma_row_index(px as int, py as int, w as int, h as int);
                        }
                        cells[(py * w + px) as usize] == wall
                    } else {
                        walls_out_of_range
                    };
                    if is_wall {
                        count = count + 1;
                    }
                }
                dx = dx + 1;
            }
            dy = dy + 1;
        }
        count
    }

    /// One generation of cellular automata on the `w` by `h` map `prev`,
    /// row by row, written to `next`: a cell with at least `w_cutoff1`
    /// walls among its 8 neighbours, or at most `w_cutoff2` walls among the
    /// 24 cells within distance two, becomes a wall, any other ground;
    /// positions outside the map count as walls when the rule says so.
    pub fn next_generation(prev: &Vec<Cell>, next: &mut Vec<Cell>, w: i32, h: i32, wall: Cell, ground: Cell, rule: CellularAutomataRule)
        requires
            0 <= w <= 0x2000_0000,
            0 <= h <= 0x2000_0000,
            w * h <= 0x3fff_ffff,
            prev@.len() == w * h,
            old(next)@.len() == w * h,
        ensures
            final(next)@.len() == w * h,
            final(next)@ == generation(prev@, w as int, h as int, wall, ground, rule),
            forall|x: int, y: int|
                0 <= x < w && 0 <= y < h ==> #[trigger] map_at(final(next)@, w as int, x, y) == (if walls_within(
                    prev@, w as int, h as int, x, y, 1, wall, rule.walls_out_of_range,
                ) >= rule.w_cutoff1 || walls_within(prev@, w as int, h as int, x, y, 2, wall, rule.walls_out_of_range)
                    <= rule.w_cutoff2 {
                    wall
                } else {
                    ground
                }),
    {
        let mut y: i32 = 0;
        while y < h
            invariant
                0 <= w <= 0x2000_0000,
                0 <= h <= 0x2000_0000,
                w * h <= 0x3fff_ffff,
                prev@.len() == w * h,
                next@.len() == w * h,
                0 <= y <= h,
                forall|x1: int, y1: int|
                    0 <= x1 < w && 0 <= y1 < y ==> #[trigger] map_at(next@, w as int, x1, y1) == (if walls_within(
                        prev@, w as int, h as int, x1, y1, 1, wall, rule.walls_out_of_range,
                    ) >= rule.w_cutoff1 || walls_within(prev@, w as int, h as int, x1, y1, 2, wall, rule.walls_out_of_range)
                        <= rule.w_cutoff2 {
                        wall
                    } else {
                        ground
                    }),
            decreases h - y,
        {
            let mut x: i32 = 0;
            while x < w
                invariant
                    0 <= w <= 0x2000_0000,
                    0 <= h <= 0x2000_0000,
                    w * h <= 0x3fff_ffff,
                    prev@.len() == w * h,
                    next@.len() == w * h,
                    0 <= y < h,
                    0 <= x <= w,
                    forall|x1: int, y1: int|
                        0 <= x1 < w && 0 <= y1 < h && (y1 < y || (y1 == y && x1 < x)) ==> #[trigger] map_at(
                            next@,
                            w as int,
                            x1,
                            y1,
                        ) == (if walls_within(prev@, w as int, h as int, x1, y1, 1, wall, rule.walls_out_of_range)
                            >= rule.w_cutoff1 || walls_within(
                            prev@, w as int, h as int, x1, y1, 2, wall, rule.walls_out_of_range,
                        ) <= rule.w_cutoff2 {
                            wall
                        } else {
                            ground
                        }),
                decreases w - x,
            {
                let p = Point::new(x, y);
                let walls1 = Self::count_walls_ring(prev, w, h, p, 1, wall, rule.walls_out_of_range);
                let walls2 = Self::count_walls_ring(prev, w, h, p, 2, wall, rule.walls_out_of_range);
                proof {
                    lemma_row_index(x as int, y as int, w as int, h as int);
                }
                let idx: usize = (y * w + x) as usize;
                let ghost before = next@;
                if walls1 >= rule.w_cutoff1 || walls2 <= rule.w_cutoff2 {
                    next.set(idx, wall);
                } else {
                    next.set(idx, ground);
                }
                proof {
                    assert forall|x1: int, y1: int|
                        0 <= x1 < w && 0 <= y1 < h && (y1 < y || (y1 == y && x1 < x + 1)) implies #[trigger] map_at(
                            next@,
                            w as int,
                            x1,
                            y1,
                        ) == (if walls_within(prev@, w as int, h as int, x1, y1, 1, wall, rule.walls_out_of_range)
                            >= rule.w_cutoff1 || walls_within(
                            prev@, w as int, h as int, x1, y1, 2, wall, rule.walls_out_of_range,
                        ) <= rule.w_cutoff2 {
                            wall
                        } else {
                            ground
                        }) by {
                        if !(x1 == x && y1 == y) {
                            lemma_row_index_distinct(x1, y1, x as int, y as int, w as int, h as int);
                            lemma_row_index(x1, y1, w as int, h as int);
                            assert(map_at(before, w as int, x1, y1) == map_at(next@, w as int, x1, y1));
                        }
                    }
                }
                x = x + 1;
            }
            y = y + 1;
        }
        proof {
            let g = generation(prev@, w as int, h as int, wall, ground, rule);
            assert forall|i: int| 0 <= i < next@.len() implies #[trigger] next@[i] == g[i] by {
                lemma_row_of(i, w as int, h as int);
                assert(map_at(next@, w as int, i % (w as int), i / (w as int)) == next@[i]);
            }
            assert(next@ =~= g);
        }
    }
}

/// Whether the position (`x`, `y`) of the `w` by `h` map `cells` counts as a
/// wall: a wall cell inside the map; outside it, as `oor` says.
pub open spec fn wall_at(cells: Seq<Cell>, w: int, h: int, x: int, y: int, wall: Cell, oor: bool) -> bool {
    if 0 <= x < w && 0 <= y < h {
        map_at(cells, w, x, y) == wall
    } else {
        oor
    }
}

/// The cell at (`x`, `y`) of a row-major map of width `w`.
pub open spec fn map_at(cells: Seq<Cell>, w: int, x: int, y: int) -> Cell {
    cells[y * w + x]
}

/// The number of walls at (`x + k`, `y + dy`), `k` from `-r` up to
/// `dx - 1`, the centre excluded.
pub open spec fn row_walls(cells: Seq<Cell>, w: int, h: int, x: int, y: int, r: int, dy: int, dx: int, wall: Cell, oor: bool) -> int
    decreases dx + r,
{
    if dx <= -r {
        0
    } else {
        row_walls(cells, w, h, x, y, r, dy, dx - 1, wall, oor) + if !(dx - 1 == 0 && dy == 0) && wall_at(
            cells,
            w,
            h,
            x + dx - 1,
            y + dy,
            wall,
            oor,
        ) {
            1int
        } else {
            0int
        }
    }
}

/// The number of walls within distance `r` of (`x`, `y`) on the rows above
/// `y + dy`, the centre excluded.
pub open spec fn ring_walls(cells: Seq<Cell>, w: int, h: int, x: int, y: int, r: int, dy: int, wall: Cell, oor: bool) -> int
    decreases dy + r,
{
    if dy <= -r {
        0
    } else {
        ring_walls(cells, w, h, x, y, r, dy - 1, wall, oor) + row_walls(cells, w, h, x, y, r, dy - 1, r + 1, wall, oor)
    }
}

/// The number of walls among the positions within Chebyshev distance `r`
/// of (`x`, `y`), the centre excluded, in the `w` by `h` map `cells`;
/// positions outside the map count as walls when `oor` holds.
pub open spec fn walls_within(cells: Seq<Cell>, w: int, h: int, x: int, y: int, r: int, wall: Cell, oor: bool) -> int {
    ring_walls(cells, w, h, x, y, r, r + 1, wall, oor)
}

/// The `w` by `h` map that one generation of `rule` makes of `prev`: at
/// each cell, a wall when at least `w_cutoff1` of its 8 neighbours were
/// walls or at most `w_cutoff2` of the 24 cells within distance two were,
/// ground otherwise.
pub open spec fn generation(prev: Seq<Cell>, w: int, h: int, wall: Cell, ground: Cell, rule: CellularAutomataRule) -> Seq<Cell> {
    Seq::new(
        (w * h) as nat,
        |i: int|
            if walls_within(prev, w, h, i % w, i / w, 1, wall, rule.walls_out_of_range) >= rule.w_cutoff1
                || walls_within(prev, w, h, i % w, i / w, 2, wall, rule.walls_out_of_range) <= rule.w_cutoff2 {
                wall
            } else {
                ground
            },
    )
}

/// The map after `k` generations of `rule`.
pub open spec fn run_rule(cells: Seq<Cell>, w: int, h: int, wall: Cell, ground: Cell, rule: CellularAutomataRule, k: nat) -> Seq<Cell>
    decreases k,
{
    if k == 0 {
        cells
    } else {
        generation(run_rule(cells, w, h, wall, ground, rule, (k - 1) as nat), w, h, wall, ground, rule)
    }
}

/// The map after each rule of `rules` in turn, each its number of times.
pub open spec fn run_rules(cells: Seq<Cell>, w: int, h: int, wall: Cell, ground: Cell, rules: Seq<CellularAutomataRule>) -> Seq<Cell>
    decreases rules.len(),
{
    if rules.len() == 0 {
        cells
    } else {
        run_rule(run_rules(cells, w, h, wall, ground, rules.drop_last()), w, h, wall, ground, rules.last(), rules.last().reps as nat)
    }
}

/// The number of cells of `s` equal to `c`.
pub open spec fn count_cell(s: Seq<Cell>, c: Cell) -> nat
    decreases s.len(),
{
    if s.len() == 0 {
        0
    } else {
        count_cell(s.drop_last(), c) + if s.last() == c { 1nat } else { 0nat }
    }
}

/// The cell of a `w`-wide row-major map at index `i`.
proof fn lemma_row_of(i: int, w: int, h: int)
    requires
        0 < w,
        0 <= i < w * h,
    ensures
        0 <= i % w < w,
        0 <= i / w < h,
        (i / w) * w + i % w == i,
{
    vstd::arithmetic::div_mod::lemma_fundamental_div_mod(i, w);
    vstd::arithmetic::div_mod::lemma_mod_pos_bound(i, w);
    assert((i / w) * w + i % w == i) by (nonlinear_arith)
        requires
            i == w * (i / w) + (i % w),
    ;
    assert(0 <= i / w < h) by (nonlinear_arith)
        requires
            0 < w,
            0 <= i < w * h,
            0 <= i % w < w,
            (i / w) * w + i % w == i,
    ;
}

/// Distinct cells of a `w` by `h` area have distinct row-major indices.
proof fn lemma_row_index_distinct(x1: int, y1: int, x2: int, y2: int, w: int, h: int)
    requires
        0 <= x1 < w,
        0 <= y1 < h,
        0 <= x2 < w,
        0 <= y2 < h,
        x1 != x2 || y1 != y2,
    ensures
        y1 * w + x1 != y2 * w + x2,
{
    if y1 < y2 {
        assert(y1 * w + x1 < y2 * w + x2) by (nonlinear_arith)
            requires
                0 <= x1 < w,
                0 <= x2,
                y1 < y2,
        ;
    } else if y2 < y1 {
        assert(y2 * w + x2 < y1 * w + x1) by (nonlinear_arith)
            requires
                0 <= x2 < w,
                0 <= x1,
                y2 < y1,
        ;
    }
}

/// The row-major index of a cell of a `w` by `h` area lies in the area.
proof fn lemma_row_index(x: int, y: int, w: int, h: int)
    requires
        0 <= x < w,
        0 <= y < h,
    ensures
        0 <= y * w + x < w * h,
{
    assert(0 <= y * w + x < w * h) by (nonlinear_arith)
        requires
            0 <= x < w,
            0 <= y < h,
    ;
}

} // verus!
