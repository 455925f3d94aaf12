use gruid::geom::Point;
use gruid::style::{Color, Style};
use gruid::ui::styled_text::StyledText;

#[test]
fn test_size_empty() {
    let stt = StyledText::text("");
    let max = stt.size();
    assert_eq!(max, Point::new(0, 0));
}

#[test]
fn test_size_word() {
    let stt = StyledText::text("word");
    let max = stt.size();
    assert_eq!(max, Point::new(4, 1));
}

#[test]
fn test_size_two_lines() {
    let stt = StyledText::text("word\nword");
    let max = stt.size();
    assert_eq!(max, Point::new(4, 2));
}

#[test]
fn test_format_9() {
    // "word word word word word" formatted to width 9
    let text = "word word word word word";
    let stt = StyledText::text(text);
    let max = stt.size();
    assert_eq!(max.x, 4 * 5 + 4);
    assert_eq!(max.y, 1);

    let stt = stt.format(9);
    let max = stt.size();
    let newlines = stt.content().matches('\n').count();
    assert_eq!(newlines, 2, "text: {}", stt.content());
    let spaces = stt.content().matches(' ').count();
    assert_eq!(spaces, 2, "text: {}", stt.content());
    assert_eq!(max, Point::new(9, 3), "text: {}", stt.content());
}

#[test]
fn test_format_8() {
    let text = "word word word word word\r";
    let stt = StyledText::text(text).format(8);
    let max = stt.size();
    let newlines = stt.content().matches('\n').count();
    assert_eq!(newlines, 4, "text: {}", stt.content());
    assert_eq!(max, Point::new(4, 5), "text: {}", stt.content());
}

#[test]
fn test_format_10() {
    let text = "word word word word word";
    let stt = StyledText::text(text).format(10);
    let max = stt.size();
    let newlines = stt.content().matches('\n').count();
    assert_eq!(newlines, 2, "text: {}", stt.content());
    assert_eq!(max, Point::new(9, 3), "text: {}", stt.content());
}

#[test]
fn test_format_1() {
    let text = "word word word word word";
    let stt = StyledText::text(text).format(1);
    let max = stt.size();
    let newlines = stt.content().matches('\n').count();
    assert_eq!(newlines, 4, "text: {}", stt.content());
    assert_eq!(max, Point::new(4, 5), "text: {}", stt.content());
}

#[test]
fn test_format_20() {
    let text = "word word word word word";
    let stt = StyledText::text(text).format(20);
    let newlines = stt.content().matches('\n').count();
    assert_eq!(newlines, 1, "text: {}", stt.content());
    let spaces = stt.content().matches(' ').count();
    assert_eq!(spaces, 3, "text: {}", stt.content());
}

#[test]
fn test_format_idempotent() {
    let text = "word word word word word";
    let stt = StyledText::text(text).format(10);
    let stt2 = stt.format(10);
    assert_eq!(stt.content(), stt2.content());
}

#[test]
fn test_format_with_markup() {
    let text = "word @cword@N word word word";
    let st = Style::default();
    let stt = StyledText::text(text).with_markup('c', st);
    let max = stt.size();
    assert_eq!(max.x, 4 * 5 + 4, "pre-format size");
    assert_eq!(max.y, 1);

    let stt = stt.format(9);
    let max = stt.size();
    let newlines = stt.content().matches('\n').count();
    assert_eq!(newlines, 2, "text: {}", stt.content());
    assert_eq!(max, Point::new(9, 3), "text: {}", stt.content());
}

#[test]
fn test_lines_no_markup() {
    let text = "a b c\nd e f g";
    let stts = StyledText::text(text).lines();
    assert_eq!(stts.len(), 2);
    assert_eq!(stts[0].content(), "a b c");
    assert_eq!(stts[1].content(), "d e f g");
}

#[test]
fn test_lines_with_markup() {
    let text = "a b @Bc\nd e@N f\nmore stuff";
    let st = Style::default();
    let stts = StyledText::text(text).with_markup('B', st).lines();
    assert_eq!(stts.len(), 3);
    assert_eq!(stts[0].content(), "a b @Bc");
    assert_eq!(stts[1].content(), "@Bd e@N f");
    assert_eq!(stts[2].content(), "more stuff");
}

#[test]
fn test_size_markup() {
    let st = Style::default();
    let stt = StyledText::text("@t\u{2022}@N ").with_markup('t', st);
    assert_eq!(stt.size(), Point::new(2, 1));
    let mut count = 0;
    stt.iter(|_, _| count += 1);
    assert_eq!(count, 2);
    let stt = stt.format(10);
    assert_eq!(stt.size(), Point::new(1, 1));
}

#[test]
fn test_markup_consecutive() {
    // "@N@@@t•@N " → @N resets, @@ emits '@', @t switches, '•', @N resets, ' '
    // visible: '@', '•', ' ' → 3 chars
    let st = Style::default();
    let stt = StyledText::text("@N@@@t\u{2022}@N ").with_markup('t', st);
    assert_eq!(stt.size(), Point::new(3, 1));
    let mut count = 0;
    stt.iter(|_, _| count += 1);
    assert_eq!(count, 3);
}

// -----------------------------------------------------------------------
// Additional tests for the @ protocol
// -----------------------------------------------------------------------

#[test]
fn test_at_escape_produces_literal_at() {
    let st = Style::default().with_fg(Color::from_rgb(255, 0, 0));
    let stt = StyledText::text("hi@@you").with_markup('x', st);
    let mut chars = Vec::new();
    stt.iter(|p, c| chars.push((p, c.ch)));
    let text: String = chars.iter().map(|(_, ch)| ch).collect();
    assert_eq!(text, "hi@you");
}

#[test]
fn test_at_reset() {
    let red = Style::default().with_fg(Color::from_rgb(255, 0, 0));
    let base = Style::default().with_fg(Color::from_rgb(0, 255, 0));
    let stt = StyledText::new("@Ra@Nb", base).with_markup('R', red);
    let mut cells = Vec::new();
    stt.iter(|_, c| cells.push(c));
    assert_eq!(cells.len(), 2);
    assert_eq!(cells[0].ch, 'a');
    assert_eq!(cells[0].style, red);
    assert_eq!(cells[1].ch, 'b');
    assert_eq!(cells[1].style, base);
}

#[test]
fn test_at_unrecognized_char() {
    // @z where z is not a registered markup key → z is consumed (not emitted),
    // style resets to the text's own style for unknown runes.
    let stt = StyledText::text("a@zb").with_markup('x', Style::default());
    let mut chars = Vec::new();
    stt.iter(|_, c| chars.push(c.ch));
    assert_eq!(chars, vec!['a', 'b']);
}

#[test]
fn test_at_end_of_string() {
    let stt = StyledText::text("hello@").with_markup('x', Style::default());
    let mut chars = Vec::new();
    stt.iter(|_, c| chars.push(c.ch));
    assert_eq!(chars, vec!['h', 'e', 'l', 'l', 'o']);
}

#[test]
fn test_no_markup_mode() {
    // When no markups are registered, '@' is treated as a normal char.
    let stt = StyledText::text("a@b");
    let mut chars = Vec::new();
    stt.iter(|_, c| chars.push(c.ch));
    assert_eq!(chars, vec!['a', '@', 'b']);
}

#[test]
fn test_nested_markup_switches() {
    let red = Style::default().with_fg(Color::from_rgb(255, 0, 0));
    let blue = Style::default().with_fg(Color::from_rgb(0, 0, 255));
    let base = Style::default();
    let stt = StyledText::new("@Ra@Bb@Nc", base)
        .with_markup('R', red)
        .with_markup('B', blue);
    let mut cells = Vec::new();
    stt.iter(|_, c| cells.push(c));
    assert_eq!(cells.len(), 3);
    assert_eq!(cells[0].style, red);
    assert_eq!(cells[1].style, blue);
    assert_eq!(cells[2].style, base);
}

#[test]
fn test_newline_positions() {
    let stt = StyledText::text("ab\ncd");
    let mut positions = Vec::new();
    stt.iter(|p, c| positions.push((p, c.ch)));
    assert_eq!(positions.len(), 4);
    assert_eq!(positions[0], (Point::new(0, 0), 'a'));
    assert_eq!(positions[1], (Point::new(1, 0), 'b'));
    assert_eq!(positions[2], (Point::new(0, 1), 'c'));
    assert_eq!(positions[3], (Point::new(1, 1), 'd'));
}

#[test]
fn test_size_returns_correct_bounding() {
    let stt = StyledText::text("ab\ncde");
    assert_eq!(stt.size(), Point::new(3, 2));
}

#[test]
fn test_carriage_return_stripped() {
    let stt = StyledText::text("a\r\nb");
    let mut chars = Vec::new();
    stt.iter(|_, c| chars.push(c.ch));
    assert_eq!(chars, vec!['a', 'b']);
    assert_eq!(stt.size(), Point::new(1, 2));
}

#[test]
fn test_lines_preserves_markup_state_across_lines() {
    // If markup 'B' is active at end of line 1, line 2 should start with @B prefix
    let st = Style::default().with_fg(Color::from_rgb(0, 0, 255));
    let stt = StyledText::text("@Bhello\nworld").with_markup('B', st);
    let lines = stt.lines();
    assert_eq!(lines.len(), 2);
    assert_eq!(lines[0].content(), "@Bhello");
    assert_eq!(lines[1].content(), "@Bworld");
}

#[test]
fn test_lines_reset_across_lines() {
    let st = Style::default();
    let stt = StyledText::text("@Bhi@N\nthere").with_markup('B', st);
    let lines = stt.lines();
    assert_eq!(lines.len(), 2);
    assert_eq!(lines[0].content(), "@Bhi@N");
    // After @N reset, markup_rune is 'N', so no prefix
    assert_eq!(lines[1].content(), "there");
}

#[test]
fn test_format_with_at_escape() {
    // @@ takes 1 visible char width
    let stt = StyledText::text("@@").with_markup('x', Style::default());
    assert_eq!(stt.size(), Point::new(1, 1));
}

#[test]
fn test_with_textf() {
    let stt = StyledText::text("old").with_textf(format!("HP: {}/{}", 10, 20));
    assert_eq!(stt.content(), "HP: 10/20");
}

#[test]
fn test_with_text_and_style() {
    let st = Style::default().with_fg(Color::from_rgb(255, 0, 0));
    let stt = StyledText::text("old").with("new", st);
    assert_eq!(stt.content(), "new");
    assert_eq!(stt.style(), st);
}

#[test]
fn test_with_markup_n_sets_base_style() {
    let custom = Style::default().with_fg(Color::from_rgb(42, 42, 42));
    let stt = StyledText::text("hello").with_markup('N', custom);
    assert_eq!(stt.style(), custom);
}
