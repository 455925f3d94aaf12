use gruid::geom::{Point, Range};
use gruid::rl::fov::{CircularLighter, FovShape, Lighter, FOV};

struct SimpleWalls {
    walls: Vec<Point>,
    max_cost: i32,
}

impl Lighter for SimpleWalls {
    fn cost(&self, _src: Point, from: Point, to: Point) -> i32 {
        // Source cell always costs 1 for symmetry.
        if from == to {
            return 1;
        }
        if self.walls.contains(&from) {
            i32::MAX
        } else {
            1
        }
    }

    fn max_cost(&self, _src: Point) -> i32 {
        self.max_cost
    }
}

#[test]
fn test_vision_map_open() {
    let range = Range::new(0, 0, 10, 10);
    let mut fov = FOV::new(range);
    let lighter = SimpleWalls {
        walls: vec![],
        max_cost: 3,
    };
    fov.vision_map(&lighter, Point::new(5, 5));

    // Source should have cost 0.
    assert_eq!(fov.at(Point::new(5, 5)), Some(0));
    // Adjacent cells should have cost 1.
    assert_eq!(fov.at(Point::new(6, 5)), Some(1));
    // Far away cell should not be reached.
    assert_eq!(fov.at(Point::new(0, 0)), None);
}

#[test]
fn test_vision_map_wall() {
    let range = Range::new(0, 0, 10, 10);
    let mut fov = FOV::new(range);
    let lighter = SimpleWalls {
        walls: vec![Point::new(6, 5)],
        max_cost: 10,
    };
    fov.vision_map(&lighter, Point::new(5, 5));

    // Source visible.
    assert_eq!(fov.at(Point::new(5, 5)), Some(0));
    // Wall cell is reached (we see the wall) but with high cost.
    // Behind the wall should not be reached.
    assert_eq!(fov.at(Point::new(8, 5)), None);
}

#[test]
fn test_ssc_open_field() {
    let range = Range::new(0, 0, 11, 11);
    let mut fov = FOV::new(range);
    let source = Point::new(5, 5);
    fov.ssc_vision_map(source, 3, |_| true, true);

    assert!(fov.visible(source));
    assert!(fov.visible(Point::new(6, 5)));
    assert!(fov.visible(Point::new(5, 6)));
    // Beyond range.
    assert!(!fov.visible(Point::new(0, 0)));
}

#[test]
fn test_ssc_wall_blocks() {
    let range = Range::new(0, 0, 11, 11);
    let mut fov = FOV::new(range);
    let source = Point::new(5, 5);
    let wall = Point::new(6, 5);
    fov.ssc_vision_map(source, 5, |p| p != wall, true);

    assert!(fov.visible(source));
    assert!(fov.visible(wall));
    assert!(!fov.visible(Point::new(7, 5)));
    assert!(!fov.visible(Point::new(8, 5)));
}

#[test]
fn test_ssc_symmetry() {
    let range = Range::new(0, 0, 20, 20);
    let wall = Point::new(8, 10);
    let passable = |p: Point| p != wall;

    let a = Point::new(10, 10);
    let b = Point::new(6, 10);

    let mut fov = FOV::new(range);
    fov.ssc_vision_map(a, 10, passable, true);
    let a_sees_b = fov.visible(b);

    fov.ssc_vision_map(b, 10, passable, true);
    let b_sees_a = fov.visible(a);

    assert_eq!(a_sees_b, b_sees_a, "SSC should be symmetric");
}

// ── Circular FOV tests ─────────────────────────────────────

#[test]
fn test_circular_lighter_clips_corners() {
    // With radius 5, the corner at (5,5) from source has Euclidean
    // distance sqrt(50) ≈ 7.07 — should NOT be visible.
    let range = Range::new(0, 0, 20, 20);
    let mut fov = FOV::new(range);
    let src = Point::new(10, 10);
    let radius = 5;

    // Square FOV first — corner should be visible.
    let lighter_sq = SimpleWalls {
        walls: vec![],
        max_cost: radius,
    };
    fov.vision_map(&lighter_sq, src);
    let corner = Point::new(15, 15);
    assert!(
        fov.at(corner).is_some(),
        "Square FOV should reach the corner"
    );

    // Circular FOV — corner should NOT be visible.
    let lighter_circ = CircularLighter::new(SimpleWalls {
        walls: vec![],
        max_cost: radius,
    });
    fov.vision_map(&lighter_circ, src);
    assert!(
        fov.at(corner).is_none(),
        "Circular FOV should NOT reach the corner at distance ~7.07"
    );

    // But a point along an axis at distance 5 should still be visible.
    let axis_pt = Point::new(15, 10);
    assert!(
        fov.at(axis_pt).is_some(),
        "Circular FOV should reach axis point at distance 5"
    );
}

#[test]
fn test_circular_lighter_near_diagonal() {
    // Point at (3,4) from source has distance 5 — should be visible
    // with radius 5. Point at (4,4) has distance ~5.66 — should not.
    let range = Range::new(0, 0, 20, 20);
    let mut fov = FOV::new(range);
    let src = Point::new(10, 10);
    let lighter = CircularLighter::new(SimpleWalls {
        walls: vec![],
        max_cost: 5,
    });
    fov.vision_map(&lighter, src);

    assert!(
        fov.at(Point::new(13, 14)).is_some(),
        "(3,4) from src: distance=5, should be visible"
    );
    assert!(
        fov.at(Point::new(14, 14)).is_none(),
        "(4,4) from src: distance≈5.66, should NOT be visible"
    );
}

#[test]
fn test_ssc_vision_map_circular() {
    let range = Range::new(0, 0, 20, 20);
    let mut fov = FOV::new(range);
    let src = Point::new(10, 10);

    // Square SSC first.
    fov.ssc_vision_map(src, 5, |_| true, true);
    let square_count = fov.iter_visible().count();

    // Circular SSC.
    fov.ssc_vision_map_circular(src, 5, |_| true, true);
    let circle_count = fov.iter_visible().count();

    // Circle should have fewer visible cells than square.
    assert!(
        circle_count < square_count,
        "Circle ({circle_count}) should have fewer visible cells than square ({square_count})"
    );

    // Corner should be clipped.
    assert!(
        !fov.visible(Point::new(15, 15)),
        "Corner should not be visible in circular SSC"
    );

    // Axis point should remain.
    assert!(
        fov.visible(Point::new(15, 10)),
        "Axis point should remain visible in circular SSC"
    );
}

#[test]
fn test_retain_circular_updates_bitmap() {
    let range = Range::new(0, 0, 20, 20);
    let mut fov = FOV::new(range);
    let src = Point::new(10, 10);

    fov.ssc_vision_map(src, 5, |_| true, true);
    assert!(fov.visible(Point::new(15, 15)), "pre-filter: corner visible");

    fov.retain_circular(src, 5);
    assert!(
        !fov.visible(Point::new(15, 15)),
        "post-filter: corner not visible"
    );
    assert!(
        fov.visible(src),
        "post-filter: source still visible"
    );
}

#[test]
fn test_fov_shape_default() {
    assert_eq!(FovShape::default(), FovShape::Square);
}

/// Test that `from()` returns the correct cost without double-counting
/// the lt.cost() of the last step: `fov.from(lt, (5,0))` returns the
/// parent at (4,0) with the accumulated stored cost minus 1.
#[test]
fn test_fov_from_no_extra_cost() {
    // Lighter: cost(src, src, _) = 0, diagonal = 2, else = 1.
    struct TestLighter {
        max: i32,
    }
    impl Lighter for TestLighter {
        fn cost(&self, src: Point, from: Point, to: Point) -> i32 {
            if src == from {
                return 0;
            }
            let step = Point::new(to.x - from.x, to.y - from.y);
            if step.x != 0 && step.y != 0 {
                2
            } else {
                1
            }
        }
        fn max_cost(&self, _src: Point) -> i32 {
            self.max
        }
    }

    let max_los = 10;
    let range = Range::new(-max_los, -max_los, max_los + 2, max_los + 2);
    let mut fov = FOV::new(range);
    let lt = TestLighter { max: max_los };
    fov.vision_map(&lt, Point::new(0, 0));

    // From(lt, (5,0)) should return parent at (4,0).
    let node = fov.from(&lt, Point::new(5, 0));
    assert!(node.is_some(), "(5,0) should be reachable");
    let node = node.unwrap();
    assert_eq!(node.pos.x, 4, "parent should be at x=4");
    assert_eq!(node.pos.y, 0, "parent should be at y=0");

    // The cost at (5,0) via at() should equal the from() node cost.
    // at(5,0) is 5 (cost 0 at source + 0 for first step + 1 each
    // subsequent = 5 for axis); from() cost must equal at() cost.
    let at_cost = fov.at(Point::new(5, 0)).unwrap();
    assert_eq!(
        node.cost, at_cost,
        "from() cost ({}) should equal at() cost ({})",
        node.cost, at_cost
    );

    // Verify the ray has correct length (6 nodes: source + 5 steps).
    let ray = fov.ray(&lt, Point::new(5, 0));
    assert!(ray.is_some());
    assert_eq!(ray.unwrap().len(), 6, "ray from (0,0) to (5,0) should have 6 nodes");
}
