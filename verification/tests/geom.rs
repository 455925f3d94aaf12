
use gruid::geom::{Point, Range};
use gruid::messages::Msg;
use gruid::messages::{ModMask, MouseAction};
use std::collections::HashSet;
use std::time::Instant;

// -----------------------------------------------------------------------
// Point tests (unchanged)
// -----------------------------------------------------------------------

#[test]
fn point_arithmetic() {
    let a = Point::new(1, 2);
    let b = Point::new(3, 4);
    assert_eq!(a + b, Point::new(4, 6));
    assert_eq!(b - a, Point::new(2, 2));
    assert_eq!(a * 3, Point::new(3, 6));
    assert_eq!(b / 2, Point::new(1, 2));
}

// -----------------------------------------------------------------------
// Range basics (kept + extended)
// -----------------------------------------------------------------------

#[test]
fn range_basics() {
    let r = Range::new(0, 0, 3, 2);
    assert_eq!(r.size(), Point::new(3, 2));
    assert!(!r.is_empty());
    assert!(r.contains(Point::new(0, 0)));
    assert!(r.contains(Point::new(2, 1)));
    assert!(!r.contains(Point::new(3, 0)));
    assert!(!r.contains(Point::new(0, 2)));
}

#[test]
fn range_auto_canonicalize() {
    let r = Range::new(3, 2, 0, 0);
    assert_eq!(r.min, Point::new(0, 0));
    assert_eq!(r.max, Point::new(3, 2));
}

#[test]
fn range_iter_count() {
    let r = Range::new(0, 0, 3, 2);
    let pts: Vec<_> = r.iter().collect();
    assert_eq!(pts.len(), 6);
    assert_eq!(pts[0], Point::new(0, 0));
    assert_eq!(pts[5], Point::new(2, 1));
}

#[test]
fn range_intersect() {
    let a = Range::new(0, 0, 4, 4);
    let b = Range::new(2, 2, 6, 6);
    let c = a.intersect(b);
    assert_eq!(c, Range::new(2, 2, 4, 4));
}

#[test]
fn range_intersect_no_overlap_returns_empty() {
    let a = Range::new(0, 0, 2, 2);
    let b = Range::new(5, 5, 7, 7);
    let c = a.intersect(b);
    assert!(c.is_empty());
    // Normalized to the zero range.
    assert_eq!(c, Range::default());
}

#[test]
fn empty_range_iter() {
    let r = Range::new(0, 0, 0, 0);
    assert!(r.is_empty());
    assert_eq!(r.iter().count(), 0);
}

// -----------------------------------------------------------------------
// Task 1: Range::add / Range::sub — Translation
// -----------------------------------------------------------------------

#[test]
fn range_add() {
    let r = Range::new(1, 2, 4, 5);
    let p = Point::new(10, 20);
    let t = r.add(p);
    assert_eq!(t.min, Point::new(11, 22));
    assert_eq!(t.max, Point::new(14, 25));
}

#[test]
fn range_sub() {
    let r = Range::new(10, 20, 14, 25);
    let p = Point::new(10, 20);
    let t = r.sub(p);
    assert_eq!(t.min, Point::new(0, 0));
    assert_eq!(t.max, Point::new(4, 5));
}

#[test]
fn range_add_sub_roundtrip() {
    let r = Range::new(3, 4, 8, 9);
    let p = Point::new(7, -3);
    assert_eq!(r.add(p).sub(p), r);
}

// -----------------------------------------------------------------------
// Task 2: Range::in_range — Containment check
// -----------------------------------------------------------------------

#[test]
fn range_in_range_contained() {
    let inner = Range::new(2, 2, 4, 4);
    let outer = Range::new(0, 0, 6, 6);
    assert!(inner.in_range(outer));
}

#[test]
fn range_in_range_same() {
    let r = Range::new(0, 0, 5, 5);
    assert!(r.in_range(r));
}

#[test]
fn range_in_range_not_contained() {
    let a = Range::new(0, 0, 5, 5);
    let b = Range::new(3, 3, 8, 8);
    assert!(!a.in_range(b));
}

#[test]
fn range_in_range_empty_always_in() {
    let empty = Range::default();
    let r = Range::new(3, 3, 5, 5);
    assert!(empty.in_range(r));
    // Even "in" another empty range.
    assert!(empty.in_range(Range::default()));
}

#[test]
fn range_in_range_empty_weird() {
    // An empty range with non-zero coordinates is still "in" any range.
    let empty = Range {
        min: Point::new(99, 99),
        max: Point::new(99, 99),
    };
    let r = Range::new(0, 0, 5, 5);
    assert!(empty.in_range(r));
}

// -----------------------------------------------------------------------
// Task 3: Range::line/lines/column/columns — Relative coordinates
// -----------------------------------------------------------------------

#[test]
fn range_line_relative() {
    let r = Range::new(2, 3, 6, 8); // 4 wide, 5 tall
    // line(0) = first line
    let l0 = r.line(0);
    assert_eq!(l0.min, Point::new(2, 3));
    assert_eq!(l0.max, Point::new(6, 4));
    // line(4) = last line
    let l4 = r.line(4);
    assert_eq!(l4.min, Point::new(2, 7));
    assert_eq!(l4.max, Point::new(6, 8));
}

#[test]
fn range_line_out_of_bounds() {
    let r = Range::new(2, 3, 6, 8);
    assert!(r.line(-1).is_empty());
    assert!(r.line(5).is_empty());
}

#[test]
fn range_lines_relative() {
    let r = Range::new(2, 3, 6, 8);
    let sub = r.lines(1, 3);
    assert_eq!(sub.min, Point::new(2, 4));
    assert_eq!(sub.max, Point::new(6, 6));
}

#[test]
fn range_lines_clamped() {
    let r = Range::new(0, 0, 5, 5);
    // Request more lines than available — intersects to what exists.
    let sub = r.lines(3, 10);
    assert_eq!(sub.min, Point::new(0, 3));
    assert_eq!(sub.max, Point::new(5, 5));
}

#[test]
fn range_lines_empty_oob() {
    let r = Range::new(0, 0, 5, 5);
    assert!(r.lines(5, 7).is_empty());
}

#[test]
fn range_column_relative() {
    let r = Range::new(2, 3, 6, 8);
    // column(0) = first column
    let c0 = r.column(0);
    assert_eq!(c0.min, Point::new(2, 3));
    assert_eq!(c0.max, Point::new(3, 8));
    // column(3) = last column
    let c3 = r.column(3);
    assert_eq!(c3.min, Point::new(5, 3));
    assert_eq!(c3.max, Point::new(6, 8));
}

#[test]
fn range_column_out_of_bounds() {
    let r = Range::new(2, 3, 6, 8);
    assert!(r.column(-1).is_empty());
    assert!(r.column(4).is_empty());
}

#[test]
fn range_columns_relative() {
    let r = Range::new(2, 3, 6, 8);
    let sub = r.columns(1, 3);
    assert_eq!(sub.min, Point::new(3, 3));
    assert_eq!(sub.max, Point::new(5, 8));
}

#[test]
fn range_columns_clamped() {
    let r = Range::new(0, 0, 5, 5);
    let sub = r.columns(2, 20);
    assert_eq!(sub.min, Point::new(2, 0));
    assert_eq!(sub.max, Point::new(5, 5));
}

#[test]
fn range_columns_empty_oob() {
    let r = Range::new(0, 0, 5, 5);
    assert!(r.columns(5, 7).is_empty());
}

// -----------------------------------------------------------------------
// Task 4: Range::shift — Empty-range safety
// -----------------------------------------------------------------------

#[test]
fn range_shift_normal() {
    let r = Range::new(1, 1, 5, 5);
    let s = r.shift(1, 1, -1, -1);
    assert_eq!(s, Range::new(2, 2, 4, 4));
}

#[test]
fn range_shift_returns_empty_when_result_is_empty() {
    let r = Range::new(1, 1, 3, 3);
    // Shrink beyond zero.
    let s = r.shift(5, 0, 0, 0);
    assert!(s.is_empty());
    assert_eq!(s, Range::default());
}

#[test]
fn range_shift_collapses_to_empty() {
    let r = Range::new(0, 0, 4, 4);
    // Make min.x == max.x
    let s = r.shift(2, 0, -2, 0);
    assert!(s.is_empty());
    assert_eq!(s, Range::default());
}

// -----------------------------------------------------------------------
// Task 5: PartialEq — Normalize empties
// -----------------------------------------------------------------------

#[test]
fn empty_ranges_compare_equal() {
    let a = Range::default(); // (0,0)-(0,0)
    let b = Range {
        min: Point::new(5, 5),
        max: Point::new(5, 5),
    };
    let c = Range {
        min: Point::new(3, 0),
        max: Point::new(1, 0),
    };
    assert_eq!(a, b);
    assert_eq!(a, c);
    assert_eq!(b, c);
}

#[test]
fn non_empty_ranges_compare_normally() {
    let a = Range::new(0, 0, 3, 3);
    let b = Range::new(0, 0, 3, 3);
    let c = Range::new(0, 0, 4, 4);
    assert_eq!(a, b);
    assert_ne!(a, c);
}

#[test]
fn empty_range_ne_non_empty() {
    let empty = Range::default();
    let non_empty = Range::new(0, 0, 1, 1);
    assert_ne!(empty, non_empty);
}

#[test]
fn empty_ranges_hash_same() {
    let a = Range::default();
    let b = Range {
        min: Point::new(5, 5),
        max: Point::new(5, 5),
    };
    let mut set = HashSet::new();
    set.insert(a);
    // b is a different empty range but should be "equal" and hash the same.
    assert!(set.contains(&b));
}

// -----------------------------------------------------------------------
// Task 6: Range::rel_msg
// -----------------------------------------------------------------------

#[test]
fn rel_msg_adjusts_mouse_position() {
    let r = Range::new(5, 10, 20, 30);
    let msg = Msg::Mouse {
        action: MouseAction::Main,
        pos: Point::new(7, 12),
        modifiers: ModMask::NONE(),
        time: Instant::now(),
    };
    let rel = r.rel_msg(msg);
    match rel {
        Msg::Mouse { pos, .. } => {
            assert_eq!(pos, Point::new(2, 2));
        }
        _ => panic!("expected Mouse variant"),
    }
}

#[test]
fn rel_msg_preserves_non_mouse() {
    let r = Range::new(5, 10, 20, 30);
    let msg = Msg::Init;
    let rel = r.rel_msg(msg);
    match rel {
        Msg::Init => {} // ok
        _ => panic!("expected Init variant"),
    }
}

#[test]
fn rel_msg_preserves_key_down() {
    let r = Range::new(5, 10, 20, 30);
    let msg = Msg::key(gruid::messages::Key::Enter);
    let rel = r.rel_msg(msg);
    match rel {
        Msg::KeyDown { key, .. } => {
            assert_eq!(key, gruid::messages::Key::Enter);
        }
        _ => panic!("expected KeyDown variant"),
    }
}

