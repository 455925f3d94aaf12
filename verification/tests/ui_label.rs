use gruid::geom::{Point, Range};
use gruid::grid::Grid;
use gruid::style::{AttrMask, Color, Style};
use gruid::ui::box_::BoxDecor;
use gruid::ui::label::Label;
use gruid::ui::styled_text::StyledText;

#[test]
fn background_fill() {
    let style = Style { fg: Color(1), bg: Color(2), attrs: AttrMask(0) };
    let label = Label {
        content: StyledText::new("Hi", style),
        box_: None,
        adjust_width: false,
    };
    let grid = Grid::new(5, 1);
    label.draw(&grid);
    // Cells under the text should have the content.
    assert_eq!(grid.at(Point::new(0, 0)).ch, 'H');
    assert_eq!(grid.at(Point::new(1, 0)).ch, 'i');
    // Cells past the text should be space-filled with the base style.
    assert_eq!(grid.at(Point::new(2, 0)).ch, ' ');
    assert_eq!(grid.at(Point::new(2, 0)).style, style);
    assert_eq!(grid.at(Point::new(4, 0)).ch, ' ');
    assert_eq!(grid.at(Point::new(4, 0)).style, style);
}

#[test]
fn adjust_width_true_shrinks_range() {
    let label = Label {
        content: StyledText::new("Hi", Style::default()),
        box_: None,
        adjust_width: true,
    };
    let grid = Grid::new(10, 3);
    let rg = label.draw(&grid);
    // "Hi" is 2 chars wide, 1 line tall.
    assert_eq!(rg, Range::new(0, 0, 2, 1));
}

#[test]
fn adjust_width_false_uses_full_width() {
    let label = Label {
        content: StyledText::new("Hi", Style::default()),
        box_: None,
        adjust_width: false,
    };
    let grid = Grid::new(10, 3);
    let rg = label.draw(&grid);
    // Full grid width, content height.
    assert_eq!(rg, Range::new(0, 0, 10, 1));
}

#[test]
fn adjust_width_with_box() {
    let label = Label {
        content: StyledText::new("Hi", Style::default()),
        box_: Some(BoxDecor::new()),
        adjust_width: true,
    };
    let grid = Grid::new(20, 10);
    let rg = label.draw(&grid);
    // 2 (content) + 2 (borders) = 4 wide, 1 + 2 = 3 tall
    assert_eq!(rg, Range::new(0, 0, 4, 3));
}
