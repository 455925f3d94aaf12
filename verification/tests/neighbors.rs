
use gruid::geom::Point;
use gruid::paths::Neighbors;

#[test]
fn diagonal_returns_four_diagonal_neighbors() {
    let mut nb = Neighbors::new();
    let p = Point::new(5, 5);
    let result = nb.diagonal(p, |_| true);
    assert_eq!(result.len(), 4);
    assert_eq!(
        result,
        &[
            Point::new(4, 4), // NW
            Point::new(6, 4), // NE
            Point::new(4, 6), // SW
            Point::new(6, 6), // SE
        ]
    );
}

#[test]
fn diagonal_filters_with_keep() {
    let mut nb = Neighbors::new();
    let p = Point::new(0, 0);
    // Only keep points with non-negative coordinates
    let result = nb.diagonal(p, |q| q.x >= 0 && q.y >= 0);
    assert_eq!(result, &[Point::new(1, 1)]); // only SE
}

#[test]
fn diagonal_order_matches_go() {
    // y in {-1,1}, x in {-1,1}: (-1,-1),(1,-1),(-1,1),(1,1)
    let mut nb = Neighbors::new();
    let p = Point::new(10, 10);
    let result = nb.diagonal(p, |_| true);
    assert_eq!(result[0], Point::new(9, 9)); // NW: shift(-1,-1)
    assert_eq!(result[1], Point::new(11, 9)); // NE: shift( 1,-1)
    assert_eq!(result[2], Point::new(9, 11)); // SW: shift(-1, 1)
    assert_eq!(result[3], Point::new(11, 11)); // SE: shift( 1, 1)
}

#[test]
fn cardinal_still_works() {
    let mut nb = Neighbors::new();
    let p = Point::new(3, 3);
    let result = nb.cardinal(p, |_| true);
    assert_eq!(result.len(), 4);
}

#[test]
fn all_still_works() {
    let mut nb = Neighbors::new();
    let p = Point::new(3, 3);
    let result = nb.all(p, |_| true);
    assert_eq!(result.len(), 8);
}

