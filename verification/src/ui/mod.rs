//! Widgets: styled text, labels, boxes, menus, pagers, text input and
//! replays.

pub mod styled_text;
pub mod box_;
pub mod label;
pub mod keys;
pub mod text_input;
pub mod pager;
pub mod menu;
pub mod replay;
