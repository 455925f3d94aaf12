
use gruid::style::{AttrMask, Color, Style};

#[test]
fn color_round_trip() {
    let c = Color::from_rgb(0xAB, 0xCD, 0xEF);
    assert_eq!(c.r(), 0xAB);
    assert_eq!(c.g(), 0xCD);
    assert_eq!(c.b(), 0xEF);
}

#[test]
fn attr_mask_ops() {
    let m = AttrMask::BOLD() | AttrMask::ITALIC();
    assert!(m.contains(AttrMask::BOLD()));
    assert!(m.contains(AttrMask::ITALIC()));
    assert!(!m.contains(AttrMask::UNDERLINE()));
    assert_eq!(m & AttrMask::BOLD(), AttrMask::BOLD());
}

#[test]
fn style_builder() {
    let s = Style::default()
        .with_fg(Color::from_rgb(255, 0, 0))
        .with_bg(Color::from_rgb(0, 0, 0))
        .with_attrs(AttrMask::BOLD());
    assert_eq!(s.fg.r(), 255);
    assert!(s.attrs.contains(AttrMask::BOLD()));
}

