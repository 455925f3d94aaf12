use gruid::geom::Point;
use gruid::grid::Grid;
use gruid::messages::{Key, MouseAction, Msg};
use gruid::style::{Color, Style};
use gruid::ui::styled_text::StyledText;
use gruid::ui::text_input::{TextInput, TextInputAction, TextInputConfig, TextInputKeys, TextInputStyle};

fn make_input(content: &str) -> TextInput {
    TextInput::new(TextInputConfig {
        grid: Grid::new(20, 1),
        content: content.to_string(),
        prompt: None,
        keys: TextInputKeys::default(),
        box_: None,
        style: TextInputStyle::default(),
    })
}

#[test]
fn type_characters() {
    let mut input = make_input("");
    input.update(Msg::key(Key::Char('h')));
    input.update(Msg::key(Key::Char('i')));
    assert_eq!(input.content(), "hi");
}

#[test]
fn backspace_and_delete() {
    let mut input = make_input("abc");
    // Cursor at end
    input.update(Msg::key(Key::Backspace));
    assert_eq!(input.content(), "ab");

    // Move to start, delete
    input.update(Msg::key(Key::Home));
    input.update(Msg::key(Key::Delete));
    assert_eq!(input.content(), "b");
}

#[test]
fn cursor_movement() {
    let mut input = make_input("hello");
    input.update(Msg::key(Key::Home));
    input.update(Msg::key(Key::Char('X')));
    assert_eq!(input.content(), "Xhello");

    input.update(Msg::key(Key::End));
    input.update(Msg::key(Key::Char('Y')));
    assert_eq!(input.content(), "XhelloY");
}

#[test]
fn confirm_cancel() {
    let mut input = make_input("test");
    let action = input.update(Msg::key(Key::Enter));
    assert_eq!(action, TextInputAction::Confirm);

    let action = input.update(Msg::key(Key::Escape));
    assert_eq!(action, TextInputAction::Cancel);
}

#[test]
fn prompt_support() {
    let mut input = TextInput::new(TextInputConfig {
        grid: Grid::new(30, 1),
        content: String::new(),
        prompt: Some(StyledText::new("> ", Style::default())),
        keys: TextInputKeys::default(),
        box_: None,
        style: TextInputStyle::default(),
    });
    assert_eq!(input.prompt_char_len(), 2);
    input.update(Msg::key(Key::Char('a')));
    assert_eq!(input.content(), "a");
}

#[test]
fn mouse_click_positions_cursor() {
    let mut input = make_input("hello");
    // Click at column 2 (should position cursor at char index 2)
    input.update(Msg::Mouse {
        action: MouseAction::Main,
        pos: Point::new(2, 0),
        modifiers: Default::default(),
        time: std::time::Instant::now(),
    });
    input.update(Msg::key(Key::Char('X')));
    assert_eq!(input.content(), "heXllo");
}

#[test]
fn cursor_auto_reverse() {
    let text_style = Style::default()
        .with_fg(Color::from_rgb(255, 255, 255))
        .with_bg(Color::from_rgb(0, 0, 0));
    let input = TextInput::new(TextInputConfig {
        grid: Grid::new(20, 1),
        content: String::new(),
        prompt: None,
        keys: TextInputKeys::default(),
        box_: None,
        style: TextInputStyle {
            text: text_style,
            cursor: Style::default(), // triggers auto-reverse
        },
    });
    // Cursor should have fg/bg swapped
    assert_eq!(input.style.cursor.fg, text_style.bg);
    assert_eq!(input.style.cursor.bg, text_style.fg);
}

#[test]
fn cursor_explicit_no_reverse() {
    let cursor_style = Style::default().with_fg(Color::from_rgb(255, 0, 0));
    let input = TextInput::new(TextInputConfig {
        grid: Grid::new(20, 1),
        content: String::new(),
        prompt: None,
        keys: TextInputKeys::default(),
        box_: None,
        style: TextInputStyle {
            text: Style::default(),
            cursor: cursor_style, // explicit — no auto-reverse
        },
    });
    assert_eq!(input.style.cursor, cursor_style);
}

#[test]
fn set_cursor_and_box() {
    let mut input = make_input("abc");
    input.set_cursor(1);
    input.update(Msg::key(Key::Char('X')));
    assert_eq!(input.content(), "aXbc");

    input.set_box(None);
    assert!(input.box_.is_none());
}
