use gruid::app::{after_drain, ends, EffectShape, LoopStep};
use gruid::geom::{Point, Range};
use gruid::grid::Grid;
use gruid::messages::{Key, Msg};
use gruid::recording::{frame_from_payload, FrameParseError};
use gruid::rl::vault::{Vault, VaultError};
use gruid::style::Style;
use gruid::ui::menu::{Menu, MenuConfig, MenuEntry, MenuKeys, MenuStyle};
use gruid::ui::styled_text::StyledText;
use gruid::ui::text_input::{TextInput, TextInputConfig, TextInputKeys, TextInputStyle};

fn make_input(content: &str) -> TextInput {
    TextInput::new(TextInputConfig {
        grid: Grid::new(20, 1),
        content: content.to_string(),
        prompt: None,
        keys: TextInputKeys::default(),
        box_: None,
        style: TextInputStyle::default(),
    })
}

#[test]
fn set_cursor_takes_a_byte_offset() {
    let mut input = make_input("\u{e9}a");
    input.set_cursor(2);
    input.update(Msg::key(Key::Char('X')));
    assert_eq!(input.content(), "\u{e9}Xa");
}

#[test]
fn set_cursor_inside_a_character_goes_to_its_start() {
    let mut input = make_input("\u{e9}a");
    input.set_cursor(1);
    input.update(Msg::key(Key::Char('X')));
    assert_eq!(input.content(), "X\u{e9}a");
}

#[test]
fn slice_outside_the_grid_is_empty() {
    let g = Grid::new(10, 10);
    let s = g.slice(Range::new(30, 30, 40, 40));
    assert_eq!(s.size(), Point::new(0, 0));
    let t = g.slice(Range::new(5, 5, 40, 40));
    assert_eq!(t.size(), Point::new(5, 5));
}

#[test]
fn vault_lines_of_different_widths_are_refused() {
    let mut v = Vault::new("AB").unwrap();
    assert!(matches!(v.parse("ABC\nDE"), Err(VaultError::InconsistentSize(_))));
    assert!(matches!(v.parse("AB\nCDE"), Err(VaultError::InconsistentSize(_))));
    assert_eq!(v.content(), "AB");
    assert_eq!(v.size(), Point::new(2, 1));
}

#[test]
fn set_active_invokable_past_the_last_changes_nothing() {
    let mut entries: Vec<MenuEntry> =
        (0..3).map(|i| MenuEntry::new(StyledText::new(&format!("Item {i}"), Style::default()))).collect();
    entries[0].disabled = true;
    let mut menu = Menu::new(MenuConfig {
        grid: Grid::new(20, 10),
        entries,
        keys: MenuKeys::default(),
        box_: None,
        style: MenuStyle::default(),
    });
    let before = menu.active();
    menu.set_active_invokable(usize::MAX);
    assert_eq!(menu.active(), before);
    menu.set_active_invokable(1);
    assert_eq!(menu.active(), 2);
}

#[test]
fn effects_that_stop_the_loop() {
    assert!(ends(&EffectShape::End));
    assert!(!ends(&EffectShape::Cmd));
    assert!(!ends(&EffectShape::Sub));
    assert!(ends(&EffectShape::Batch(vec![EffectShape::Cmd, EffectShape::Batch(vec![EffectShape::End])])));
    assert!(!ends(&EffectShape::Batch(vec![EffectShape::Cmd, EffectShape::Batch(vec![])])));
}

#[test]
fn drawing_and_flushing_after_a_drain() {
    assert_eq!(after_drain(false, 5), LoopStep { draw: false, flush: false });
    assert_eq!(after_drain(true, 0), LoopStep { draw: true, flush: false });
    assert_eq!(after_drain(true, 3), LoopStep { draw: true, flush: true });
}

#[test]
fn a_payload_announced_too_short_is_too_small() {
    assert!(matches!(frame_from_payload(3, &[0u8; 3]), Err(FrameParseError::TooSmall)));
}

#[test]
fn set_cursor_then_insert_in_ascii_text() {
    let mut input = make_input("hello");
    input.set_cursor(2);
    input.update(Msg::key(Key::Char('X')));
    assert_eq!(input.content(), "heXllo");
}

#[test]
fn two_half_turns_restore_a_vault() {
    let mut v = Vault::new("ab\ncd").expect("a well-formed vault");
    let before = v.content().to_string();
    v.rotate(2);
    v.rotate(2);
    assert_eq!(v.content(), before);
}
