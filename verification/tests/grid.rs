
use gruid::cell::Cell;
use gruid::geom::{Point, Range};
use gruid::grid::{compute_frame, Grid};

#[test]
fn grid_new_and_at() {
    let g = Grid::new(4, 3);
    assert_eq!(g.size(), Point::new(4, 3));
    assert_eq!(g.at(Point::new(0, 0)), Cell::default());
}

#[test]
fn grid_set_and_get() {
    let g = Grid::new(4, 3);
    let c = Cell::default().with_char('X');
    g.set(Point::new(2, 1), c);
    assert_eq!(g.at(Point::new(2, 1)).ch, 'X');
    // out of bounds returns default
    assert_eq!(g.at(Point::new(10, 10)), Cell::default());
}

#[test]
fn grid_slice_relative_coords() {
    let g = Grid::new(10, 10);
    let c = Cell::default().with_char('#');
    // Slice a 5x5 region starting at (2,3).
    let s = g.slice(Range::new(2, 3, 7, 8));
    assert_eq!(s.size(), Point::new(5, 5));
    // set at relative (0,0) in the slice -> absolute (2,3)
    s.set(Point::new(0, 0), c);
    // read from the parent grid at relative (2,3)
    assert_eq!(g.at(Point::new(2, 3)).ch, '#');
    // read from the slice at relative (0,0)
    assert_eq!(s.at(Point::new(0, 0)).ch, '#');
}

#[test]
fn grid_slice_shares_buffer() {
    let g = Grid::new(4, 3);
    let s = g.slice(Range::new(1, 1, 3, 3));
    let c = Cell::default().with_char('#');
    // Set at relative (0,0) of the slice -> absolute (1,1).
    s.set(Point::new(0, 0), c);
    assert_eq!(g.at(Point::new(1, 1)).ch, '#');
}

#[test]
fn grid_nested_slice() {
    let g = Grid::new(20, 20);
    let s1 = g.slice(Range::new(5, 5, 15, 15));
    let s2 = s1.slice(Range::new(2, 2, 5, 5));
    let c = Cell::default().with_char('Z');
    // Set at relative (0,0) of s2 -> absolute (7,7)
    s2.set(Point::new(0, 0), c);
    assert_eq!(g.at(Point::new(7, 7)).ch, 'Z');
    assert_eq!(s1.at(Point::new(2, 2)).ch, 'Z');
    assert_eq!(s2.at(Point::new(0, 0)).ch, 'Z');
}

#[test]
fn grid_contains_relative() {
    let g = Grid::new(10, 10);
    let s = g.slice(Range::new(5, 5, 8, 8));
    assert!(s.contains(Point::new(0, 0)));
    assert!(s.contains(Point::new(2, 2)));
    assert!(!s.contains(Point::new(3, 0))); // outside slice width
    assert!(!s.contains(Point::new(-1, 0)));
}

#[test]
fn grid_fill() {
    let g = Grid::new(3, 2);
    let c = Cell::default().with_char('.');
    g.fill(c);
    for (_, cell) in g.iter() {
        assert_eq!(cell.ch, '.');
    }
}

#[test]
fn grid_iter_relative_coords() {
    let g = Grid::new(10, 10);
    let s = g.slice(Range::new(3, 3, 6, 6));
    let positions: Vec<Point> = s.iter().map(|(p, _)| p).collect();
    assert_eq!(positions[0], Point::new(0, 0));
    assert_eq!(positions.last(), Some(&Point::new(2, 2)));
    assert_eq!(positions.len(), 9); // 3x3
}

#[test]
fn compute_frame_diff() {
    let a = Grid::new(3, 2);
    let b = Grid::new(3, 2);
    b.set(Point::new(1, 0), Cell::default().with_char('A'));
    let frame = compute_frame(&a, &b);
    assert_eq!(frame.cells.len(), 1);
    assert_eq!(frame.cells[0].pos, Point::new(1, 0));
    assert_eq!(frame.cells[0].cell.ch, 'A');
}

#[test]
fn compute_frame_relative_positions() {
    // Even for sliced grids, frame positions should be relative.
    let a = Grid::new(10, 10);
    let b = Grid::new(10, 10);
    b.set(Point::new(5, 5), Cell::default().with_char('X'));
    let frame = compute_frame(&a, &b);
    assert_eq!(frame.cells.len(), 1);
    assert_eq!(frame.cells[0].pos, Point::new(5, 5));
}

#[test]
fn grid_map_cells_relative() {
    let g = Grid::new(10, 10);
    let s = g.slice(Range::new(5, 5, 8, 8));
    s.map_cells(|p, _| Cell::default().with_char(if p.x == 0 && p.y == 0 { 'O' } else { '.' }));
    assert_eq!(s.at(Point::new(0, 0)).ch, 'O');
    assert_eq!(s.at(Point::new(1, 0)).ch, '.');
}

// -----------------------------------------------------------------------
// resize tests
// -----------------------------------------------------------------------

#[test]
fn resize_same_size_is_noop() {
    let mut g = Grid::new(4, 3);
    g.set(Point::new(1, 1), Cell::default().with_char('A'));
    g.resize(4, 3);
    assert_eq!(g.size(), Point::new(4, 3));
    assert_eq!(g.at(Point::new(1, 1)).ch, 'A');
}

#[test]
fn resize_grow_preserves_content() {
    let mut g = Grid::new(3, 2);
    g.set(Point::new(0, 0), Cell::default().with_char('X'));
    g.set(Point::new(2, 1), Cell::default().with_char('Y'));
    g.resize(5, 4);
    assert_eq!(g.size(), Point::new(5, 4));
    // Old content preserved.
    assert_eq!(g.at(Point::new(0, 0)).ch, 'X');
    assert_eq!(g.at(Point::new(2, 1)).ch, 'Y');
    // New cells are default (space).
    assert_eq!(g.at(Point::new(3, 0)).ch, ' ');
    assert_eq!(g.at(Point::new(0, 3)).ch, ' ');
}

#[test]
fn resize_shrink_preserves_overlap() {
    let mut g = Grid::new(5, 5);
    g.set(Point::new(1, 1), Cell::default().with_char('K'));
    g.set(Point::new(4, 4), Cell::default().with_char('Z'));
    g.resize(3, 3);
    assert_eq!(g.size(), Point::new(3, 3));
    // (1,1) is still inside the new grid.
    assert_eq!(g.at(Point::new(1, 1)).ch, 'K');
    // (4,4) is outside bounds now.
    assert_eq!(g.at(Point::new(4, 4)), Cell::default());
}

#[test]
fn resize_to_zero_produces_empty() {
    let mut g = Grid::new(3, 3);
    g.resize(0, 0);
    assert_eq!(g.size(), Point::new(0, 0));
}

#[test]
fn resize_grow_width_only() {
    let mut g = Grid::new(2, 2);
    g.set(Point::new(0, 0), Cell::default().with_char('A'));
    g.set(Point::new(1, 1), Cell::default().with_char('B'));
    g.resize(4, 2);
    assert_eq!(g.size(), Point::new(4, 2));
    assert_eq!(g.at(Point::new(0, 0)).ch, 'A');
    assert_eq!(g.at(Point::new(1, 1)).ch, 'B');
    assert_eq!(g.at(Point::new(2, 0)).ch, ' ');
}

#[test]
fn resize_grow_height_only() {
    let mut g = Grid::new(2, 2);
    g.set(Point::new(0, 0), Cell::default().with_char('A'));
    g.set(Point::new(1, 1), Cell::default().with_char('B'));
    g.resize(2, 5);
    assert_eq!(g.size(), Point::new(2, 5));
    assert_eq!(g.at(Point::new(0, 0)).ch, 'A');
    assert_eq!(g.at(Point::new(1, 1)).ch, 'B');
    assert_eq!(g.at(Point::new(0, 4)).ch, ' ');
}

// -----------------------------------------------------------------------
// Display test
// -----------------------------------------------------------------------

#[test]
fn display_output() {
    let g = Grid::new(3, 2);
    g.set(Point::new(0, 0), Cell::default().with_char('A'));
    g.set(Point::new(1, 0), Cell::default().with_char('B'));
    g.set(Point::new(2, 0), Cell::default().with_char('C'));
    g.set(Point::new(0, 1), Cell::default().with_char('D'));
    g.set(Point::new(1, 1), Cell::default().with_char('E'));
    g.set(Point::new(2, 1), Cell::default().with_char('F'));
    let s = g.to_string();
    assert_eq!(s, "ABC\nDEF\n");
}

#[test]
fn display_slice() {
    let g = Grid::new(4, 4);
    g.fill(Cell::default().with_char('.'));
    g.set(Point::new(1, 1), Cell::default().with_char('X'));
    let s = g.slice(Range::new(1, 1, 3, 3));
    let out = s.to_string();
    assert_eq!(out, "X.\n..\n");
}

// -----------------------------------------------------------------------
// points() test
// -----------------------------------------------------------------------

#[test]
fn points_iterator() {
    let g = Grid::new(3, 2);
    let pts: Vec<Point> = g.points().collect();
    assert_eq!(pts.len(), 6);
    assert_eq!(pts[0], Point::new(0, 0));
    assert_eq!(pts[1], Point::new(1, 0));
    assert_eq!(pts[5], Point::new(2, 1));
}

#[test]
fn points_on_slice() {
    let g = Grid::new(10, 10);
    let s = g.slice(Range::new(3, 3, 6, 5));
    let pts: Vec<Point> = s.points().collect();
    // 3x2 slice -> 6 points, all relative
    assert_eq!(pts.len(), 6);
    assert_eq!(pts[0], Point::new(0, 0));
    assert_eq!(pts[5], Point::new(2, 1));
}

