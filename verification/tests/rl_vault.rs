use gruid::geom::Point;
use gruid::rl::grid::{Cell, Grid};
use gruid::rl::vault::Vault;

const ROOM: &str = "\
####
#..#
#..#
####";

#[test]
fn parse_and_size() {
    let v = Vault::new(ROOM).unwrap();
    assert_eq!(v.size(), Point::new(4, 4));
}

#[test]
fn iter_positions() {
    let v = Vault::new(ROOM).unwrap();
    let mut cells = Vec::new();
    v.iter(|p, ch| cells.push((p, ch)));
    assert_eq!(cells.len(), 16);
    assert_eq!(cells[0], (Point::new(0, 0), '#'));
    assert_eq!(cells[5], (Point::new(1, 1), '.'));
}

#[test]
fn draw_into_grid() {
    let v = Vault::new(ROOM).unwrap();
    let grid = Grid::new(10, 10);
    let sub = v.draw(&grid, |ch| if ch == '#' { Cell(1) } else { Cell(0) });
    assert_eq!(sub.size(), Point::new(4, 4));
    assert_eq!(grid.at(Point::new(0, 0)), Some(Cell(1)));
    assert_eq!(grid.at(Point::new(1, 1)), Some(Cell(0)));
}

#[test]
fn reflect() {
    let mut v = Vault::new("AB\nCD").unwrap();
    v.reflect();
    assert_eq!(v.content(), "BA\nDC");
    assert_eq!(v.size(), Point::new(2, 2));
}

#[test]
fn rotate_90() {
    let mut v = Vault::new("AB\nCD").unwrap();
    v.rotate(1); // 90° CCW
    // Original:      Rotated 90° CCW:
    //   AB              BD
    //   CD              AC
    assert_eq!(v.content(), "BD\nAC");
    assert_eq!(v.size(), Point::new(2, 2));
}

#[test]
fn rotate_180() {
    let mut v = Vault::new("AB\nCD").unwrap();
    v.rotate(2);
    assert_eq!(v.content(), "DC\nBA");
}

#[test]
fn rotate_270() {
    let mut v = Vault::new("AB\nCD").unwrap();
    v.rotate(3); // 270° CCW = 90° CW
    assert_eq!(v.content(), "CA\nDB");
    assert_eq!(v.size(), Point::new(2, 2));
}

#[test]
fn rotate_full_circle() {
    let mut v = Vault::new(ROOM).unwrap();
    let original = v.content().to_string();
    v.rotate(4);
    assert_eq!(v.content(), original);
}

#[test]
fn set_runes_validation() {
    let mut v = Vault {
        content: String::new(),
        runes: String::new(),
        size: Point::new(0, 0),
    };
    v.set_runes("#.");
    assert!(v.parse(ROOM).is_ok());
    assert!(v.parse("AB").is_err());
}

#[test]
fn inconsistent_size_error() {
    let result = Vault::new("AB\nCDE");
    assert!(result.is_err());
}
