use gruid::geom::{Point, Range};
use gruid::paths::{AstarPather, PathRange, Pather, WeightedPather, manhattan};

/// A 4-way grid pather over a small map of walls.
struct Walls {
    walls: Vec<Point>,
}

impl Pather for Walls {
    fn neighbors(&self, p: Point, buf: &mut Vec<Point>) {
        for d in [Point::new(1, 0), Point::new(-1, 0), Point::new(0, 1), Point::new(0, -1)] {
            let q = Point::new(p.x + d.x, p.y + d.y);
            if !self.walls.contains(&q) {
                buf.push(q);
            }
        }
    }
}

impl WeightedPather for Walls {
    fn cost(&self, _from: Point, _to: Point) -> i32 {
        1
    }
}

impl AstarPather for Walls {
    fn estimate(&self, from: Point, to: Point) -> i32 {
        manhattan(from, to)
    }
}

#[test]
fn jps_four_way_small_square() {
    let mut pr = PathRange::new(Range::new(0, 0, 2, 2));
    let r = pr.jps_path(Point::new(0, 0), Point::new(1, 1), |_| true, false);
    let p = r.expect("a path joins opposite corners");
    assert_eq!(p.len(), 3);
    assert_eq!(p[0], Point::new(0, 0));
    assert_eq!(p[2], Point::new(1, 1));
    assert_eq!(manhattan(p[0], p[1]), 1);
    assert_eq!(manhattan(p[1], p[2]), 1);
}

#[test]
fn jps_four_way_around_a_wall() {
    let mut pr = PathRange::new(Range::new(0, 0, 5, 5));
    let wall = |q: Point| !(q.x == 2 && q.y < 4);
    let p = pr.jps_path(Point::new(0, 0), Point::new(4, 0), wall, false).expect("a way round the wall");
    assert_eq!(p.len(), 13);
    for i in 0..p.len() - 1 {
        assert_eq!(manhattan(p[i], p[i + 1]), 1);
        assert!(wall(p[i]));
    }
}

#[test]
fn jps_four_way_blocked() {
    let mut pr = PathRange::new(Range::new(0, 0, 5, 5));
    let wall = |q: Point| q.x != 2;
    assert!(pr.jps_path(Point::new(0, 0), Point::new(4, 0), wall, false).is_none());
}

#[test]
fn jps_eight_way_diagonal() {
    let mut pr = PathRange::new(Range::new(0, 0, 4, 4));
    let p = pr.jps_path(Point::new(0, 0), Point::new(3, 3), |_| true, true).expect("a diagonal path");
    assert_eq!(p.len(), 4);
    assert_eq!(p[0], Point::new(0, 0));
    assert_eq!(p[3], Point::new(3, 3));
}

#[test]
fn jps_adjacent_ends() {
    let mut pr = PathRange::new(Range::new(0, 0, 3, 3));
    let p = pr.jps_path(Point::new(1, 1), Point::new(2, 2), |_| true, true).expect("one move apart");
    assert_eq!(p, vec![Point::new(1, 1), Point::new(2, 2)]);
}

#[test]
fn astar_path_around_wall() {
    let mut pr = PathRange::new(Range::new(0, 0, 5, 5));
    let pather = Walls { walls: vec![Point::new(2, 0), Point::new(2, 1), Point::new(2, 2), Point::new(2, 3)] };
    let p = pr.astar_path(&pather, Point::new(0, 0), Point::new(4, 0)).expect("a way round the wall");
    assert_eq!(p.len(), 13);
    assert_eq!(p[0], Point::new(0, 0));
    assert_eq!(p[12], Point::new(4, 0));
    for i in 0..p.len() - 1 {
        assert_eq!(manhattan(p[i], p[i + 1]), 1);
        assert!(!pather.walls.contains(&p[i]));
    }
}

#[test]
fn astar_path_blocked() {
    let mut pr = PathRange::new(Range::new(0, 0, 5, 5));
    let pather = Walls { walls: (0..5).map(|y| Point::new(2, y)).collect() };
    assert!(pr.astar_path(&pather, Point::new(0, 0), Point::new(4, 0)).is_none());
    assert!(pr.astar_path(&pather, Point::new(0, 0), Point::new(1, 4)).is_some());
}

#[test]
fn cc_map_reaches_one_side() {
    let mut pr = PathRange::new(Range::new(0, 0, 5, 3));
    let pather = Walls { walls: (0..3).map(|y| Point::new(2, y)).collect() };
    let cells = pr.cc_map(&pather, Point::new(0, 0));
    assert_eq!(cells.len(), 6);
    assert_eq!(cells[0], Point::new(0, 0));
    assert_eq!(pr.cc_at(Point::new(1, 2)), Some(0));
    assert_eq!(pr.cc_at(Point::new(3, 0)), None);
}

#[test]
fn cc_map_all_labels_sides() {
    let mut pr = PathRange::new(Range::new(0, 0, 5, 3));
    let pather = Walls { walls: (0..3).map(|y| Point::new(2, y)).collect() };
    pr.cc_map_all(&pather);
    assert_eq!(pr.cc_at(Point::new(0, 0)), pr.cc_at(Point::new(1, 2)));
    assert_ne!(pr.cc_at(Point::new(0, 0)), pr.cc_at(Point::new(4, 2)));
    assert_eq!(pr.cc_at(Point::new(3, 0)), pr.cc_at(Point::new(4, 2)));
}

#[test]
fn bfs_map_counts_steps() {
    let mut pr = PathRange::new(Range::new(0, 0, 5, 5));
    let pather = Walls { walls: vec![Point::new(2, 0), Point::new(2, 1), Point::new(2, 2), Point::new(2, 3)] };
    let n = pr.bfs_map(&pather, &[Point::new(0, 0)], 100).len();
    assert_eq!(n, 21);
    assert_eq!(pr.bfs_at(Point::new(4, 0)), 12);
    assert_eq!(pr.bfs_at(Point::new(1, 1)), 2);
}

#[test]
fn dijkstra_map_least_cost() {
    let mut pr = PathRange::new(Range::new(0, 0, 5, 5));
    let pather = Walls { walls: vec![Point::new(2, 0), Point::new(2, 1), Point::new(2, 2), Point::new(2, 3)] };
    let n = pr.dijkstra_map(&pather, &[Point::new(0, 0)], 100).len();
    assert_eq!(n, 21);
    assert_eq!(pr.dijkstra_at(Point::new(4, 0)), 12);
    assert_eq!(pr.dijkstra_at(Point::new(2, 0)), gruid::paths::UNREACHABLE);
    pr.dijkstra_map(&pather, &[Point::new(0, 0)], 5);
    assert_eq!(pr.dijkstra_at(Point::new(1, 4)), 5);
    assert_eq!(pr.dijkstra_at(Point::new(2, 4)), gruid::paths::UNREACHABLE);
}
