use gruid::geom::Point;
use gruid::grid::Grid;
use gruid::messages::{Key, MouseAction, Msg};
use gruid::style::Style;
use gruid::ui::box_::BoxDecor;
use gruid::ui::menu::{Menu, MenuAction, MenuConfig, MenuEntry, MenuKeys, MenuStyle};
use gruid::ui::styled_text::StyledText;
use std::time::Instant;

fn make_menu(n: usize, height: i32) -> Menu {
    let entries: Vec<MenuEntry> = (0..n)
        .map(|i| MenuEntry::new(StyledText::new(&format!("Item {i}"), Style::default())))
        .collect();
    Menu::new(MenuConfig {
        grid: Grid::new(20, height),
        entries,
        keys: MenuKeys::default(),
        box_: None,
        style: MenuStyle::default(),
    })
}

#[test]
fn keyboard_navigation() {
    let mut menu = make_menu(5, 10);
    assert_eq!(menu.active(), 0);

    menu.update(Msg::key(Key::ArrowDown));
    assert_eq!(menu.active(), 1);

    menu.update(Msg::key(Key::ArrowUp));
    assert_eq!(menu.active(), 0);

    // Wrap around
    menu.update(Msg::key(Key::ArrowUp));
    assert_eq!(menu.active(), 4);
}

#[test]
fn disabled_entry_skip() {
    let mut entries: Vec<MenuEntry> = (0..5)
        .map(|i| MenuEntry::new(StyledText::new(&format!("Item {i}"), Style::default())))
        .collect();
    entries[1].disabled = true;
    entries[2].disabled = true;

    let mut menu = Menu::new(MenuConfig {
        grid: Grid::new(20, 10),
        entries,
        keys: MenuKeys::default(),
        box_: None,
        style: MenuStyle::default(),
    });

    assert_eq!(menu.active(), 0);
    menu.update(Msg::key(Key::ArrowDown));
    // Should skip 1 and 2, land on 3
    assert_eq!(menu.active(), 3);
}

#[test]
fn pagination() {
    let mut menu = make_menu(10, 3); // 3 rows visible
    assert_eq!(menu.page(), 0);
    assert_eq!(menu.page_count(), 4); // ceil(10/3)

    menu.update(Msg::key(Key::PageDown));
    assert_eq!(menu.page(), 1);
    assert_eq!(menu.active(), 3);

    menu.update(Msg::key(Key::PageUp));
    assert_eq!(menu.page(), 0);
    assert_eq!(menu.active(), 0);
}

#[test]
fn mouse_hover_and_click() {
    let mut menu = make_menu(5, 10);
    assert_eq!(menu.active(), 0);

    // Hover over row 2
    let action = menu.update(Msg::Mouse {
        action: MouseAction::Move,
        pos: Point::new(5, 2),
        modifiers: Default::default(),
        time: Instant::now(),
    });
    assert_eq!(menu.active(), 2);
    assert_eq!(action, MenuAction::Move);

    // Click
    let action = menu.update(Msg::Mouse {
        action: MouseAction::Main,
        pos: Point::new(5, 2),
        modifiers: Default::default(),
        time: Instant::now(),
    });
    assert_eq!(action, MenuAction::Invoke);
}

#[test]
fn set_entries_resets() {
    let mut menu = make_menu(5, 10);
    menu.set_active(3);
    assert_eq!(menu.active(), 3);

    menu.set_entries(vec![MenuEntry::new(StyledText::new(
        "New",
        Style::default(),
    ))]);
    assert_eq!(menu.active(), 0);
    assert_eq!(menu.page(), 0);
}

#[test]
fn invoke_action() {
    let mut menu = make_menu(3, 10);
    let action = menu.update(Msg::key(Key::Enter));
    assert_eq!(action, MenuAction::Invoke);
}

#[test]
fn menu_quit_action() {
    let mut menu = make_menu(3, 10);
    let action = menu.update(Msg::key(Key::Escape));
    assert_eq!(action, MenuAction::Quit);
}

#[test]
fn active_invokable_basic() {
    let mut entries: Vec<MenuEntry> = (0..5)
        .map(|i| MenuEntry::new(StyledText::new(&format!("Item {i}"), Style::default())))
        .collect();
    entries[1].disabled = true;
    entries[3].disabled = true;

    let mut menu = Menu::new(MenuConfig {
        grid: Grid::new(20, 10),
        entries,
        keys: MenuKeys::default(),
        box_: None,
        style: MenuStyle::default(),
    });

    // active=0 ("Item 0", enabled) → invokable index 0
    assert_eq!(menu.active(), 0);
    assert_eq!(menu.active_invokable(), Some(0));

    // move to index 2 ("Item 2", enabled, skipping disabled 1) → invokable index 1
    menu.set_active(2);
    assert_eq!(menu.active_invokable(), Some(1));

    // move to index 4 ("Item 4", enabled, skipping disabled 1,3) → invokable index 2
    menu.set_active(4);
    assert_eq!(menu.active_invokable(), Some(2));

    // move to disabled entry → None
    menu.set_active(1);
    assert_eq!(menu.active_invokable(), None);

    menu.set_active(3);
    assert_eq!(menu.active_invokable(), None);
}

#[test]
fn set_active_invokable_basic() {
    let mut entries: Vec<MenuEntry> = (0..5)
        .map(|i| MenuEntry::new(StyledText::new(&format!("Item {i}"), Style::default())))
        .collect();
    entries[0].disabled = true;
    entries[2].disabled = true;
    // Invokable entries: 1, 3, 4 (indices 0, 1, 2 among invokable)

    let mut menu = Menu::new(MenuConfig {
        grid: Grid::new(20, 10),
        entries,
        keys: MenuKeys::default(),
        box_: None,
        style: MenuStyle::default(),
    });

    menu.set_active_invokable(0);
    assert_eq!(menu.active(), 1);

    menu.set_active_invokable(1);
    assert_eq!(menu.active(), 3);

    menu.set_active_invokable(2);
    assert_eq!(menu.active(), 4);

    // out of range: no change
    menu.set_active_invokable(10);
    assert_eq!(menu.active(), 4);
}

fn mouse_msg(action: MouseAction, x: i32, y: i32) -> Msg {
    Msg::Mouse {
        action,
        pos: Point::new(x, y),
        modifiers: Default::default(),
        time: Instant::now(),
    }
}

#[test]
fn mouse_click_outside_quits() {
    let mut menu = make_menu(3, 5);
    // Click at y=10 which is outside the 5-row grid
    let action = menu.update(mouse_msg(MouseAction::Main, 0, 10));
    assert_eq!(action, MenuAction::Quit);
}

#[test]
fn mouse_wheel_pages() {
    let mut menu = make_menu(10, 3); // 3 visible rows, ceil(10/3) = 4 pages
    assert_eq!(menu.page(), 0);
    assert_eq!(menu.active(), 0);

    // Wheel down inside content area
    let action = menu.update(mouse_msg(MouseAction::WheelDown, 1, 1));
    assert_eq!(action, MenuAction::Move);
    assert_eq!(menu.page(), 1);
    assert_eq!(menu.active(), 3);

    // Wheel up
    let action = menu.update(mouse_msg(MouseAction::WheelUp, 1, 1));
    assert_eq!(action, MenuAction::Move);
    assert_eq!(menu.page(), 0);
    assert_eq!(menu.active(), 0);

    // Wheel up at page 0 → no change (Pass)
    let action = menu.update(mouse_msg(MouseAction::WheelUp, 1, 1));
    assert_eq!(action, MenuAction::Pass);
}

#[test]
fn mouse_move_highlights() {
    let mut menu = make_menu(5, 10);
    assert_eq!(menu.active(), 0);

    let action = menu.update(mouse_msg(MouseAction::Move, 5, 3));
    assert_eq!(action, MenuAction::Move);
    assert_eq!(menu.active(), 3);

    // Moving to same entry → Pass
    let action = menu.update(mouse_msg(MouseAction::Move, 2, 3));
    assert_eq!(action, MenuAction::Pass);
}

#[test]
fn mouse_click_invokes() {
    let mut menu = make_menu(5, 10);
    let action = menu.update(mouse_msg(MouseAction::Main, 5, 2));
    assert_eq!(action, MenuAction::Invoke);
    assert_eq!(menu.active(), 2);
}

#[test]
fn mouse_click_disabled_entry() {
    let mut entries: Vec<MenuEntry> = (0..5)
        .map(|i| MenuEntry::new(StyledText::new(&format!("Item {i}"), Style::default())))
        .collect();
    entries[2].disabled = true;

    let mut menu = Menu::new(MenuConfig {
        grid: Grid::new(20, 10),
        entries,
        keys: MenuKeys::default(),
        box_: None,
        style: MenuStyle::default(),
    });

    // Click on disabled entry → Move (not Invoke)
    let action = menu.update(mouse_msg(MouseAction::Main, 5, 2));
    assert_eq!(action, MenuAction::Move);
    assert_eq!(menu.active(), 2);
}

#[test]
fn mouse_click_on_box_border() {
    let mut menu = Menu::new(MenuConfig {
        grid: Grid::new(20, 10),
        entries: (0..3)
            .map(|i| MenuEntry::new(StyledText::new(&format!("Item {i}"), Style::default())))
            .collect(),
        keys: MenuKeys::default(),
        box_: Some(BoxDecor::new()),
        style: MenuStyle::default(),
    });

    // Click on top border (y=0) - inside outer but outside inner → Pass (not Quit)
    let action = menu.update(mouse_msg(MouseAction::Main, 5, 0));
    assert_eq!(action, MenuAction::Pass);

    // Click outside the box entirely
    let action = menu.update(mouse_msg(MouseAction::Main, 5, 20));
    assert_eq!(action, MenuAction::Quit);
}


fn entries(n: usize) -> Vec<MenuEntry> {
    (0..n)
        .map(|i| MenuEntry::new(StyledText::new(&format!("Item {i}"), Style::default())))
        .collect()
}

#[test]
fn table_layout_places_by_columns() {
    let mut style = MenuStyle::default();
    style.layout = Point::new(2, 2);
    let mut menu = Menu::new(MenuConfig {
        grid: Grid::new(20, 10),
        entries: entries(6),
        keys: MenuKeys::default(),
        box_: None,
        style,
    });
    assert_eq!(menu.page_count(), 2);
    menu.set_active(2);
    let b = menu.active_bounds();
    assert_eq!((b.min.x, b.min.y, b.max.x, b.max.y), (10, 0, 20, 1));
    menu.set_active(0);
    assert_eq!(menu.update(Msg::key(Key::ArrowRight)), MenuAction::Move);
    assert_eq!(menu.active(), 2);
    assert_eq!(menu.update(Msg::key(Key::PageDown)), MenuAction::Move);
    assert_eq!(menu.active(), 4);
    assert_eq!(menu.page(), 1);
}

#[test]
fn line_layout_pages_by_width() {
    let mut style = MenuStyle::default();
    style.layout = Point::new(3, 1);
    let menu = Menu::new(MenuConfig {
        grid: Grid::new(10, 3),
        entries: entries(3),
        keys: MenuKeys::default(),
        box_: None,
        style,
    });
    assert_eq!(menu.page_count(), 3);
    let mut menu2 = Menu::new(MenuConfig {
        grid: Grid::new(20, 3),
        entries: entries(3),
        keys: MenuKeys::default(),
        box_: None,
        style,
    });
    assert_eq!(menu.page(), 0);
    menu2.set_active(1);
    let b = menu2.active_bounds();
    assert_eq!((b.min.x, b.max.x), (6, 12));
    assert_eq!(menu2.page_count(), 1);
}

#[test]
fn shortcut_key_invokes_enabled_entry() {
    let mut es = entries(4);
    es[1].keys = vec![Key::Char('x')];
    es[1].disabled = true;
    es[2].keys = vec![Key::Char('x')];
    let mut menu = Menu::new(MenuConfig {
        grid: Grid::new(20, 10),
        entries: es,
        keys: MenuKeys::default(),
        box_: None,
        style: MenuStyle::default(),
    });
    assert_eq!(menu.update(Msg::key(Key::Char('x'))), MenuAction::Invoke);
    assert_eq!(menu.active(), 2);
    assert_eq!(menu.update(Msg::key(Key::Char('z'))), MenuAction::Pass);
}

#[test]
fn empty_menu_passes() {
    let mut menu = Menu::new(MenuConfig {
        grid: Grid::new(20, 10),
        entries: vec![],
        keys: MenuKeys::default(),
        box_: None,
        style: MenuStyle::default(),
    });
    assert_eq!(menu.update(Msg::key(Key::ArrowDown)), MenuAction::Pass);
    assert_eq!(menu.active(), 0);
    assert_eq!(menu.active_invokable(), None);
}

#[test]
fn draw_with_box_and_page_number() {
    let grid = Grid::new(20, 5);
    let menu = Menu::new(MenuConfig {
        grid: grid.clone(),
        entries: entries(10),
        keys: MenuKeys::default(),
        box_: Some(BoxDecor::new()),
        style: MenuStyle::default(),
    });
    assert_eq!(menu.page_count(), 4);
    let r = menu.draw();
    assert_eq!((r.min.x, r.min.y, r.max.x, r.max.y), (0, 0, 20, 5));
    assert_eq!(grid.at(Point::new(1, 1)).ch, 'I');
    assert_eq!(grid.at(Point::new(0, 0)).ch, '\u{250c}');
    let footer: String = (0..20).map(|x| grid.at(Point::new(x, 4)).ch).collect();
    assert!(footer.contains("0/3"));
}

#[test]
fn down_wraps_to_first() {
    let mut menu = make_menu(3, 10);
    menu.set_active(2);
    assert_eq!(menu.update(Msg::key(Key::ArrowDown)), MenuAction::Move);
    assert_eq!(menu.active(), 0);
}
