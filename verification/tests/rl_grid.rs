use gruid::geom::{Point, Range};
use gruid::rl::grid::{Grid, Cell};

#[test]
fn test_new_and_size() {
    let g = Grid::new(10, 5);
    assert_eq!(g.size(), Point::new(10, 5));
    assert_eq!(g.width(), 10);
    assert_eq!(g.height(), 5);
}

#[test]
fn test_set_and_at() {
    let g = Grid::new(4, 4);
    let p = Point::new(2, 3);
    g.set(p, Cell(42));
    assert_eq!(g.at(p), Some(Cell(42)));
    assert_eq!(g.at(Point::new(0, 0)), Some(Cell(0)));
    assert_eq!(g.at(Point::new(10, 10)), None);
}

#[test]
fn test_slice_relative_coords() {
    let g = Grid::new(10, 10);
    g.set(Point::new(5, 5), Cell(99));
    let s = g.slice(Range::new(3, 3, 8, 8));
    // relative (2,2) in slice = absolute (5,5)
    assert_eq!(s.at(Point::new(2, 2)), Some(Cell(99)));
    // set at relative (0,0) in slice = absolute (3,3)
    s.set(Point::new(0, 0), Cell(77));
    assert_eq!(g.at(Point::new(3, 3)), Some(Cell(77)));
}

#[test]
fn test_slice_shares_buffer() {
    let g = Grid::new(10, 10);
    let s = g.slice(Range::new(2, 2, 5, 5));
    // Set in parent, read from slice
    g.set(Point::new(3, 3), Cell(99));
    // relative (1,1) in slice = absolute (3,3)
    assert_eq!(s.at(Point::new(1, 1)), Some(Cell(99)));
}

#[test]
fn test_fill_and_count() {
    let g = Grid::new(5, 5);
    g.fill(Cell(1));
    assert_eq!(g.count(Cell(1)), 25);
    g.set(Point::new(0, 0), Cell(2));
    assert_eq!(g.count(Cell(1)), 24);
    assert_eq!(g.count(Cell(2)), 1);
}

#[test]
fn test_iter_relative() {
    let g = Grid::new(3, 2);
    g.set(Point::new(1, 0), Cell(5));
    let items: Vec<(Point, Cell)> = g.iter().collect();
    assert_eq!(items.len(), 6);
    assert_eq!(items[0].0, Point::new(0, 0));
    assert_eq!(items[1], (Point::new(1, 0), Cell(5)));
}

#[test]
fn test_nested_slice() {
    let g = Grid::new(20, 20);
    let s1 = g.slice(Range::new(5, 5, 15, 15));
    let s2 = s1.slice(Range::new(2, 2, 5, 5));
    s2.set(Point::new(0, 0), Cell(42));
    // abs (7,7)
    assert_eq!(g.at(Point::new(7, 7)), Some(Cell(42)));
    assert_eq!(s1.at(Point::new(2, 2)), Some(Cell(42)));
    assert_eq!(s2.at(Point::new(0, 0)), Some(Cell(42)));
}

#[test]
fn test_contains_relative() {
    let g = Grid::new(10, 10);
    let s = g.slice(Range::new(5, 5, 8, 8));
    assert!(s.contains(Point::new(0, 0)));
    assert!(s.contains(Point::new(2, 2)));
    assert!(!s.contains(Point::new(3, 0)));
    assert!(!s.contains(Point::new(-1, 0)));
}

#[test]
fn test_for_each_mut() {
    let g = Grid::new(3, 3);
    g.fill(Cell(1));
    g.for_each_mut(|p, cell| {
        *cell = Cell(p.x + p.y);
    });
    assert_eq!(g.at(Point::new(0, 0)), Some(Cell(0)));
    assert_eq!(g.at(Point::new(2, 1)), Some(Cell(3)));
    assert_eq!(g.at(Point::new(1, 2)), Some(Cell(3)));
    assert_eq!(g.at(Point::new(2, 2)), Some(Cell(4)));
}

#[test]
fn test_for_each_mut_on_slice() {
    let g = Grid::new(10, 10);
    g.fill(Cell(0));
    let s = g.slice(Range::new(2, 2, 5, 5));
    s.for_each_mut(|_p, cell| {
        *cell = Cell(cell.0 + 10);
    });
    // Inside slice: was 0, now 10.
    assert_eq!(g.at(Point::new(3, 3)), Some(Cell(10)));
    // Outside slice: unchanged.
    assert_eq!(g.at(Point::new(0, 0)), Some(Cell(0)));
}

#[test]
fn test_map_cells_mut() {
    let g = Grid::new(4, 4);
    g.fill(Cell(1));
    g.map_cells_mut(|p, c| Cell(c.0 + p.x * 10));
    assert_eq!(g.at(Point::new(0, 0)), Some(Cell(1)));
    assert_eq!(g.at(Point::new(3, 0)), Some(Cell(31)));
    assert_eq!(g.at(Point::new(2, 3)), Some(Cell(21)));
}

#[test]
fn test_at_unchecked() {
    let g = Grid::new(5, 5);
    g.fill(Cell(7));
    // Normal in-bounds access.
    assert_eq!(g.at_unchecked(Point::new(2, 2)), Cell(7));
    // Completely out of underlying buffer returns Cell(0).
    assert_eq!(g.at_unchecked(Point::new(100, 100)), Cell(0));
    assert_eq!(g.at_unchecked(Point::new(-1, -1)), Cell(0));
}

#[test]
fn test_at_unchecked_skips_slice_bounds() {
    let g = Grid::new(10, 10);
    g.set(Point::new(0, 0), Cell(42));
    let s = g.slice(Range::new(5, 5, 8, 8));
    // Relative (-5, -5) is outside the slice, but at_unchecked
    // skips slice bounds and hits absolute (0, 0).
    assert_eq!(s.at_unchecked(Point::new(-5, -5)), Cell(42));
    // Normal at() would return None for the same point.
    assert_eq!(s.at(Point::new(-5, -5)), None);
}

#[test]
fn test_resize_same_size() {
    let mut g = Grid::new(10, 10);
    g.fill(Cell(5));
    g.resize(10, 10);
    assert_eq!(g.size(), Point::new(10, 10));
    assert_eq!(g.at(Point::new(5, 5)), Some(Cell(5)));
}

#[test]
fn test_resize_grow() {
    let mut g = Grid::new(5, 5);
    g.fill(Cell(3));
    g.resize(10, 10);
    assert_eq!(g.size(), Point::new(10, 10));
    // Old content preserved.
    assert_eq!(g.at(Point::new(2, 2)), Some(Cell(3)));
    // New area is zero.
    assert_eq!(g.at(Point::new(7, 7)), Some(Cell(0)));
}

#[test]
fn test_resize_shrink_to_zero() {
    let mut g = Grid::new(10, 10);
    g.resize(-1, 5);
    assert_eq!(g.size(), Point::new(0, 0));
}

#[test]
fn test_resize_preserves_content() {
    let mut g = Grid::new(20, 10);
    g.fill(Cell(2));
    g.resize(20, 30);
    assert_eq!(g.at_unchecked(Point::new(10, 5)), Cell(2));
    assert_eq!(g.at_unchecked(Point::new(10, 25)), Cell(0));
}

#[test]
fn test_copy_from_returns_size() {
    let g1 = Grid::new(10, 10);
    let g2 = Grid::new(5, 8);
    let copied = g1.copy_from(&g2);
    assert_eq!(copied, Point::new(5, 8));

    let g3 = Grid::new(3, 3);
    let copied2 = g3.copy_from(&g1);
    assert_eq!(copied2, Point::new(3, 3));
}

#[test]
fn test_copy_from_same_grid_returns_size() {
    let g = Grid::new(10, 10);
    let copied = g.copy_from(&g);
    assert_eq!(copied, Point::new(10, 10));
}
