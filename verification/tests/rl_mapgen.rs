use gruid::geom::Point;
use gruid::rl::grid::{Cell, Grid};
use gruid::rl::mapgen::RandomWalker;
use gruid::rl::mapgen::{CellularAutomataRule, FourDirectionWalker, MapGen};
use rand::rngs::StdRng;
use rand::SeedableRng;

/// The threshold on 53 random bits that a probability stands for.
fn threshold(p: f64) -> u64 {
    (p * 9007199254740992.0).ceil() as u64
}

#[test]
fn test_random_walk_carves_cells() {
    let grid = Grid::new(20, 20);
    grid.fill(Cell(1)); // all walls
    let mut mg = MapGen::with_grid(grid, StdRng::from_os_rng());
    let target = (400.0 * 0.4) as usize;
    let carved = mg.random_walk_cave(&FourDirectionWalker, Cell(0), target, 10);
    assert!(carved > 0);
    let ground_count = mg.grid.count(Cell(0));
    assert!(ground_count >= carved);
}

#[test]
fn test_cellular_automata_produces_mixed() {
    let grid = Grid::new(30, 30);
    let mut mg = MapGen::with_grid(grid, StdRng::from_os_rng());
    let rules = vec![CellularAutomataRule::default()];
    let ground = mg.cellular_automata_cave(Cell(1), Cell(0), threshold(0.45), &rules);
    // Should have some ground and some wall.
    assert!(ground > 0);
    let total = 30 * 30;
    assert!(ground < total);
}

#[test]
fn random_walk_stops_at_target() {
    let grid = Grid::new(10, 10);
    grid.fill(Cell(1));
    let mut mg = MapGen::with_grid(grid, StdRng::seed_from_u64(7));
    let carved = mg.random_walk_cave(&FourDirectionWalker, Cell(0), 5, 3);
    assert_eq!(carved, 5);
    assert_eq!(mg.grid.count(Cell(0)), 5);
}

#[test]
fn cellular_automata_all_walls_or_all_ground() {
    // Threshold zero: every cell starts as ground; with no rule it stays so.
    let grid = Grid::new(8, 6);
    let mut mg = MapGen::with_grid(grid, StdRng::seed_from_u64(1));
    assert_eq!(mg.cellular_automata_cave(Cell(1), Cell(0), 0, &vec![]), 48);
    // A threshold of 2^53: every cell starts as a wall.
    assert_eq!(mg.cellular_automata_cave(Cell(1), Cell(0), 1u64 << 53, &vec![]), 0);
}

#[test]
fn four_direction_walker_steps_once() {
    let mut rng = StdRng::seed_from_u64(3);
    for _ in 0..50 {
        let q = FourDirectionWalker.neighbor(Point::new(5, 5), &mut rng);
        assert_eq!((q.x - 5).abs() + (q.y - 5).abs(), 1);
    }
}

#[test]
fn cellular_rule_default() {
    let r = CellularAutomataRule::default();
    assert_eq!((r.w_cutoff1, r.w_cutoff2, r.walls_out_of_range, r.reps), (5, 2, true, 4));
}
