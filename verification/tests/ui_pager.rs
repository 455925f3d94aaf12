use gruid::geom::Point;
use gruid::grid::Grid;
use gruid::messages::{Key, MouseAction, Msg};
use gruid::style::Style;
use gruid::ui::pager::{Pager, PagerAction, PagerConfig, PagerKeys, PagerStyle, SCROLL_STEP_X};
use gruid::ui::styled_text::StyledText;

fn make_pager(num_lines: usize, height: i32) -> Pager {
    let content_str: String = (0..num_lines)
        .map(|i| format!("Line {i}"))
        .collect::<Vec<_>>()
        .join("\n");
    Pager::new(PagerConfig {
        content: StyledText::new(&content_str, Style::default()),
        grid: Grid::new(20, height),
        keys: PagerKeys::default(),
        box_: None,
        style: PagerStyle::default(),
    })
}

#[test]
fn scroll_down_up() {
    let mut pager = make_pager(20, 5);
    assert_eq!(pager.view().min.y, 0);

    pager.update(Msg::key(Key::ArrowDown));
    assert_eq!(pager.view().min.y, 1);

    pager.update(Msg::key(Key::ArrowUp));
    assert_eq!(pager.view().min.y, 0);

    // Can't scroll above 0
    pager.update(Msg::key(Key::ArrowUp));
    assert_eq!(pager.view().min.y, 0);
}

#[test]
fn page_up_down() {
    let mut pager = make_pager(30, 5);
    pager.update(Msg::key(Key::PageDown));
    assert_eq!(pager.view().min.y, 4); // nlines-1 = 5-1 = 4

    pager.update(Msg::key(Key::PageUp));
    assert_eq!(pager.view().min.y, 0);
}

#[test]
fn top_bottom() {
    let mut pager = make_pager(30, 5);
    pager.update(Msg::key(Key::End));
    assert_eq!(pager.view().min.y, 25); // 30 - 5

    pager.update(Msg::key(Key::Home));
    assert_eq!(pager.view().min.y, 0);
}

#[test]
fn horizontal_scroll() {
    // Use a narrow grid (5 chars) with long lines so horizontal scroll works.
    let long_content = "This is a very long line that exceeds the grid width";
    let mut pager = Pager::new(PagerConfig {
        content: StyledText::new(long_content, Style::default()),
        grid: Grid::new(5, 3),
        keys: PagerKeys::default(),
        box_: None,
        style: PagerStyle::default(),
    });
    pager.update(Msg::key(Key::ArrowRight));
    assert_eq!(pager.view().min.x, SCROLL_STEP_X);

    pager.update(Msg::key(Key::ArrowLeft));
    assert_eq!(pager.view().min.x, 0);
}

#[test]
fn horizontal_scroll_step_is_8() {
    let long_content = "A very long line of text that is wider than the pager grid width";
    let mut pager = Pager::new(PagerConfig {
        content: StyledText::new(long_content, Style::default()),
        grid: Grid::new(10, 3),
        keys: PagerKeys::default(),
        box_: None,
        style: PagerStyle::default(),
    });
    pager.update(Msg::key(Key::ArrowRight));
    assert_eq!(pager.view().min.x, 8);
    pager.update(Msg::key(Key::ArrowRight));
    assert_eq!(pager.view().min.x, 16);
    pager.update(Msg::key(Key::ArrowLeft));
    assert_eq!(pager.view().min.x, 8);
}

#[test]
fn start_key_resets_x() {
    let long_content = "A very long line of text";
    let mut pager = Pager::new(PagerConfig {
        content: StyledText::new(long_content, Style::default()),
        grid: Grid::new(5, 3),
        keys: PagerKeys::default(),
        box_: None,
        style: PagerStyle::default(),
    });
    pager.update(Msg::key(Key::ArrowRight));
    pager.update(Msg::key(Key::ArrowRight));
    assert!(pager.view().min.x > 0);
    pager.update(Msg::key(Key::Char('0')));
    assert_eq!(pager.view().min.x, 0);
}

#[test]
fn mouse_wheel() {
    let mut pager = make_pager(30, 5);
    pager.update(Msg::Mouse {
        action: MouseAction::WheelDown,
        pos: Point::new(0, 0),
        modifiers: Default::default(),
        time: std::time::Instant::now(),
    });
    assert_eq!(pager.view().min.y, 1);
}

#[test]
fn mouse_click_page_down() {
    let mut pager = make_pager(30, 6);
    // Click in the bottom half (y = 4, nlines = 6, half = 3)
    pager.update(Msg::Mouse {
        action: MouseAction::Main,
        pos: Point::new(5, 4),
        modifiers: Default::default(),
        time: std::time::Instant::now(),
    });
    assert_eq!(pager.action(), PagerAction::Scroll);
    assert_eq!(pager.view().min.y, 5); // nlines-1 = 5
}

#[test]
fn mouse_click_page_up() {
    let mut pager = make_pager(30, 6);
    // First scroll down.
    pager.set_cursor(Point::new(0, 10));
    // Click in the top half (y = 1, nlines = 6, half = 3)
    pager.update(Msg::Mouse {
        action: MouseAction::Main,
        pos: Point::new(5, 1),
        modifiers: Default::default(),
        time: std::time::Instant::now(),
    });
    assert_eq!(pager.action(), PagerAction::Scroll);
    assert_eq!(pager.view().min.y, 5); // 10 - 5
}

#[test]
fn pager_quit_action() {
    let mut pager = make_pager(5, 5);
    let action = pager.update(Msg::key(Key::Escape));
    assert_eq!(action, PagerAction::Quit);
}

#[test]
fn lines_count() {
    let pager = make_pager(15, 5);
    assert_eq!(pager.lines(), 15);
}

#[test]
fn view_returns_range() {
    let pager = make_pager(10, 5);
    let v = pager.view();
    assert_eq!(v.min, Point::new(0, 0));
    assert_eq!(v.max.y, 5);
    assert_eq!(v.max.x, 20); // grid width
}

#[test]
fn set_cursor_sets_both_x_and_y() {
    let mut pager = make_pager(30, 5);
    pager.set_cursor(Point::new(4, 10));
    let v = pager.view();
    assert_eq!(v.min.x, 4);
    assert_eq!(v.min.y, 10);
}

#[test]
fn set_cursor_clamps() {
    let mut pager = make_pager(20, 6);
    // Set beyond max
    pager.set_cursor(Point::new(0, 100));
    let v = pager.view();
    assert!(v.min.y >= 0);
    assert!(v.max.y <= 20);
    // Negative x clamped to 0
    pager.set_cursor(Point::new(-5, 3));
    assert_eq!(pager.view().min.x, 0);
}

#[test]
fn pager_go_test() {
    let content_str = "line 0\nline 1\nline 2\nline 3";
    let mut pager = Pager::new(PagerConfig {
        content: StyledText::new(content_str, Style::default()),
        grid: Grid::new(10, 6),
        keys: PagerKeys::default(),
        box_: None,
        style: PagerStyle::default(),
    });
    assert_eq!(pager.action(), PagerAction::Pass);
    assert_eq!(pager.lines(), 4);
    assert_eq!(pager.view().size().y, 4);

    pager.update(Msg::key(Key::Escape));
    assert_eq!(pager.action(), PagerAction::Quit);

    // Double the lines
    let double_content = "line 0\nline 1\nline 2\nline 3\nline 0\nline 1\nline 2\nline 3";
    let double_formatted = StyledText::new(double_content, Style::default());
    pager.set_lines(double_formatted.lines());
    assert_eq!(pager.view().size().y, 6);
    assert_eq!(pager.view().max.y, 6);
    assert_eq!(pager.lines(), 8);

    pager.update(Msg::key(Key::ArrowDown));
    assert_eq!(pager.action(), PagerAction::Scroll);
    assert_eq!(pager.view().size().y, 6);
    assert_eq!(pager.view().max.y, 7);

    pager.set_lines(vec![]);
    assert_eq!(pager.view().size().y, 0);
    pager.update(Msg::key(Key::ArrowDown));
    assert_eq!(pager.action(), PagerAction::Pass);
}

#[test]
fn pager_set_cursor_go_test() {
    let content_str: String = (0..20)
        .map(|i| format!("{i}"))
        .collect::<Vec<_>>()
        .join("\n");
    let mut pager = Pager::new(PagerConfig {
        content: StyledText::new(&content_str, Style::default()),
        grid: Grid::new(10, 6),
        keys: PagerKeys::default(),
        box_: None,
        style: PagerStyle::default(),
    });

    for i in -1..=20 {
        pager.set_cursor(Point::new(0, i));
        let view = pager.view();
        assert!(
            view.min.y >= 0,
            "view min y: {} ({})",
            view.min.y,
            i
        );
        assert!(
            view.max.y <= 20,
            "view max y: {} ({})",
            view.max.y,
            i
        );
        if i >= 0 && i <= 14 {
            assert_eq!(
                view.max.y,
                i + 6,
                "view max y: {} ({})",
                view.max.y,
                i
            );
        }
        if i == 14 {
            assert_eq!(
                view.min.y, i,
                "view min y: {} ({})",
                view.min.y, i
            );
        }
        if i == 15 {
            assert_ne!(
                view.min.y, i,
                "view min y should not be {} ({})",
                view.min.y, i
            );
        }
    }
}
