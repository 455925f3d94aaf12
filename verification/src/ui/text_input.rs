//! Single-line text input widget with cursor, prompt and mouse support.
use vstd::prelude::*;

use crate::cell::Cell;
use crate::geom::{Point, Range, rg, min_int, max_int};
use crate::grid::Grid;
use crate::messages::{Key, MouseAction, Msg};
use crate::style::Style;
use crate::ui::box_::{BoxDecor, box_inner};
use crate::ui::keys::key_in;
use crate::ui::styled_text::StyledText;
use crate::util::{chars_of, string_of};

verus! {

/// Key bindings of a text input.
#[derive(Debug, Clone)]
pub struct TextInputKeys {
    /// Keys that confirm the input.
    pub confirm: Vec<Key>,
    /// Keys that cancel the input.
    pub cancel: Vec<Key>,
}

impl Default for TextInputKeys {
    fn default() -> (k: TextInputKeys)
        ensures
            k.confirm@ == seq![Key::Enter],
            k.cancel@ == seq![Key::Escape],
    {
        TextInputKeys { confirm: vec![Key::Enter], cancel: vec![Key::Escape] }
    }
}

/// Visual style of a text input: the text's and the cursor's.
#[derive(Debug, Clone, Copy, PartialEq, Eq, Structural)]
pub struct TextInputStyle {
    pub text: Style,
    pub cursor: Style,
}

impl Default for TextInputStyle {
    fn default() -> (s: TextInputStyle)
        ensures
            s.text == Style::spec_default(),
            s.cursor == Style::spec_default(),
    {
        TextInputStyle { text: Style::new(), cursor: Style::new() }
    }
}

/// Configuration of a [`TextInput`].
#[derive(Clone)]
pub struct TextInputConfig {
    pub grid: Grid,
    pub content: String,
    pub prompt: Option<StyledText>,
    pub keys: TextInputKeys,
    pub box_: Option<BoxDecor>,
    pub style: TextInputStyle,
}

/// Actions returned by [`TextInput::update`].
#[derive(Debug, Clone, Copy, PartialEq, Eq, Structural, Hash)]
pub enum TextInputAction {
    /// Nothing of note.
    Pass,
    /// The content changed.
    Change,
    /// The input was confirmed.
    Confirm,
    /// The input was cancelled.
    Cancel,
}

/// A single-line text input. The cursor is a position among the content's
/// characters, from 0 to their number.
#[derive(Clone)]
pub struct TextInput {
    grid: Grid,
    text: String,
    chars: Vec<char>,
    cursor: usize,
    pub prompt: Option<StyledText>,
    pub keys: TextInputKeys,
    pub box_: Option<BoxDecor>,
    pub style: TextInputStyle,
    action: TextInputAction,
}

/// The number of bytes of `c` in UTF-8.
pub open spec fn spec_utf8_len(c: char) -> int {
    if (c as u32) < 0x80 {
        1
    } else if (c as u32) < 0x800 {
        2
    } else if (c as u32) < 0x1_0000 {
        3
    } else {
        4
    }
}

/// The number of bytes of `c` in UTF-8.
pub fn utf8_len(c: char) -> (n: usize)
    ensures
        n == spec_utf8_len(c),
{
    let v: u32 = c as u32;
    if v < 0x80 {
        1
    } else if v < 0x800 {
        2
    } else if v < 0x1_0000 {
        3
    } else {
        4
    }
}

/// The number of leading characters of `cs` whose UTF-8 encoding ends at
/// byte offset `pos` or before: the character index of a byte offset,
/// rounded down to a character's start.
pub open spec fn chars_before_byte(cs: Seq<char>, pos: int) -> nat
    decreases cs.len(),
{
    if cs.len() == 0 || spec_utf8_len(cs[0]) > pos {
        0
    } else {
        1 + chars_before_byte(cs.drop_first(), pos - spec_utf8_len(cs[0]))
    }
}

/// The cursor style a configuration gives: the one set, or, when it is the
/// default style, the text style with its colours swapped.
pub open spec fn cursor_style(s: TextInputStyle) -> Style {
    if s.cursor == Style::spec_default() {
        Style { fg: s.text.bg, bg: s.text.fg, attrs: s.text.attrs }
    } else {
        s.cursor
    }
}

/// The range inside which the input is drawn on a grid with the given
/// bounds: one cell in from each side with a box.
pub open spec fn input_inner(bounds: Range, boxed: bool) -> Range {
    let w = bounds.spec_width();
    let h = bounds.spec_height();
    let r = rg(min_int(w, 0), min_int(h, 0), max_int(w, 0), max_int(h, 0));
    if boxed {
        rg(min_int(r.min.x + 1, r.max.x - 1), min_int(r.min.y + 1, r.max.y - 1), max_int(r.min.x + 1, r.max.x - 1),
            max_int(r.min.y + 1, r.max.y - 1))
    } else {
        r
    }
}

/// The first character shown, so that the cursor stays visible in a field
/// of `input_w` characters.
pub open spec fn scroll_of(cursor: int, input_w: int) -> int {
    if cursor >= input_w {
        cursor - input_w + 1
    } else {
        0
    }
}

impl TextInput {
    /// The characters of the content.
    pub closed spec fn spec_chars(&self) -> Seq<char> {
        self.chars@
    }

    /// The cursor position, among the characters.
    pub closed spec fn spec_cursor(&self) -> int {
        self.cursor as int
    }

    /// The prompt.
    pub closed spec fn spec_prompt(&self) -> Option<StyledText> {
        self.prompt
    }

    /// The box decoration.
    pub closed spec fn spec_box(&self) -> Option<BoxDecor> {
        self.box_
    }

    /// The key bindings.
    pub closed spec fn spec_keys(&self) -> TextInputKeys {
        self.keys
    }

    /// The visual style in use.
    pub closed spec fn spec_style(&self) -> TextInputStyle {
        self.style
    }

    /// The last action.
    pub closed spec fn spec_action(&self) -> TextInputAction {
        self.action
    }

    /// The bounds of the grid the input lives on.
    pub closed spec fn spec_bounds(&self) -> Range {
        self.grid@
    }

    /// The content and its characters agree, and the cursor is among them.
    pub closed spec fn wf(&self) -> bool {
        &&& self.text@ == self.chars@
        &&& self.cursor <= self.chars@.len()
        &&& self.chars@.len() < usize::MAX
    }

    /// A well-formed input keeps its cursor among its characters, short of
    /// the largest size.
    pub proof fn lemma_wf_cursor(&self)
        requires
            self.wf(),
        ensures
            0 <= self.spec_cursor() <= self.spec_chars().len(),
            self.spec_chars().len() < usize::MAX,
    {
    }

    /// The number of characters of the prompt.
    pub closed spec fn spec_prompt_len(&self) -> int {
        match self.prompt {
            Some(p) => p.spec_text().len() as int,
            None => 0,
        }
    }

    /// The width of the editable field, in characters.
    pub closed spec fn spec_input_w(&self) -> int {
        let inner = input_inner(self.spec_bounds(), self.box_ is Some);
        let vis = inner.max.x - inner.min.x;
        if vis > self.spec_prompt_len() { vis - self.spec_prompt_len() } else { 0 }
    }

    /// Create a text input from a configuration, with the cursor after the
    /// content. A cursor style left at the default is derived from the
    /// text style by swapping its colours.
    pub fn new(config: TextInputConfig) -> (t: TextInput)
        requires
            config.content@.len() < usize::MAX,
        ensures
            t.wf(),
            t.spec_chars() == config.content@,
            t.spec_cursor() == config.content@.len(),
            t.spec_action() == TextInputAction::Pass,
            t.spec_bounds() == config.grid@,
            t.spec_prompt() == config.prompt,
            t.spec_box() == config.box_,
            t.spec_keys() == config.keys,
            t.spec_style().text == config.style.text,
            t.spec_style().cursor == cursor_style(config.style),
    {
        let TextInputConfig { grid, content, prompt, keys, box_, style } = config;
        let chars = chars_of(content.as_str());
        let cursor: usize = chars.len();
        let mut s = style;
        if s.cursor == Style::new() {
            s.cursor = Style { fg: s.text.bg, bg: s.text.fg, attrs: s.text.attrs };
        }
        TextInput { grid, text: content, chars, cursor, prompt, keys, box_, style: s, action: TextInputAction::Pass }
    }

    /// The current content.
    pub fn content(&self) -> (s: &str)
        requires
            self.wf(),
        ensures
            s@ == self.spec_chars(),
    {
        self.text.as_str()
    }

    /// Set the content and put the cursor after it.
    pub fn set_content(&mut self, s: &str)
        requires
            s@.len() < usize::MAX,
        ensures
            final(self).wf(),
            final(self).spec_chars() == s@,
            final(self).spec_cursor() == s@.len(),
            final(self).spec_action() == old(self).spec_action(),
            final(self).spec_bounds() == old(self).spec_bounds(),
    {
        self.chars = chars_of(s);
        self.text = s.to_owned();
        self.cursor = self.chars.len();
    }

    /// The last action.
    pub fn action(&self) -> (a: TextInputAction)
        ensures
            a == self.spec_action(),
    {
        self.action
    }

    /// Set the cursor at byte offset `pos` of the content (in UTF-8), no
    /// further than its end; an offset inside a character's encoding goes
    /// back to that character's start.
    pub fn set_cursor(&mut self, pos: usize)
        requires
            old(self).wf(),
        ensures
            final(self).wf(),
            final(self).spec_chars() == old(self).spec_chars(),
            final(self).spec_cursor() == chars_before_byte(old(self).spec_chars(), pos as int),
            final(self).spec_action() == old(self).spec_action(),
            final(self).spec_bounds() == old(self).spec_bounds(),
            final(self).spec_keys() == old(self).spec_keys(),
            final(self).spec_prompt() == old(self).spec_prompt(),
            final(self).spec_box() == old(self).spec_box(),
            final(self).spec_style() == old(self).spec_style(),
    {
        let n = self.chars.len();
        let mut k: usize = 0;
        let mut rest: usize = pos;
        proof {
            assert(self.chars@.subrange(0, n as int) =~= self.chars@);
        }
        while k < n && utf8_len(self.chars[k]) <= rest
            invariant
                n == self.chars@.len(),
                k <= n,
                *self == *old(self),
                chars_before_byte(self.chars@, pos as int) == k + chars_before_byte(
                    self.chars@.subrange(k as int, n as int),
                    rest as int,
                ),
            decreases n - k,
        {
            proof {
                let t = self.chars@.subrange(k as int, n as int);
                assert(t.drop_first() =~= self.chars@.subrange(k + 1, n as int));
            }
            rest = rest - utf8_len(self.chars[k]);
            k = k + 1;
        }
        proof {
            let t = self.chars@.subrange(k as int, n as int);
            if k < n {
                assert(t[0] == self.chars@[k as int]);
            }
        }
        self.cursor = k;
    }

    /// Replace the box decoration.
    pub fn set_box(&mut self, box_: Option<BoxDecor>)
        ensures
            final(self).spec_box() == box_,
            final(self).spec_chars() == old(self).spec_chars(),
            final(self).spec_cursor() == old(self).spec_cursor(),
            final(self).wf() == old(self).wf(),
            final(self).spec_bounds() == old(self).spec_bounds(),
    {
        self.box_ = box_;
    }

    /// Set the prompt.
    pub fn set_prompt(&mut self, prompt: Option<StyledText>)
        ensures
            final(self).spec_prompt() == prompt,
            final(self).spec_chars() == old(self).spec_chars(),
            final(self).spec_cursor() == old(self).spec_cursor(),
            final(self).wf() == old(self).wf(),
            final(self).spec_bounds() == old(self).spec_bounds(),
    {
        self.prompt = prompt;
    }

    /// The number of characters of the prompt.
    pub fn prompt_char_len(&self) -> (n: usize)
        ensures
            n == self.spec_prompt_len(),
    {
        match &self.prompt {
            Some(p) => chars_of(p.content()).len(),
            None => 0,
        }
    }

    /// The range the input is drawn in, relative to its grid.
    fn inner_range(&self) -> (r: Range)
        ensures
            r == input_inner(self.spec_bounds(), self.box_ is Some),
    {
        let _b = self.grid.bounds();
        let r = self.grid.range_();
        if self.box_.is_some() {
            Range::new(r.min.x + 1, r.min.y + 1, r.max.x - 1, r.max.y - 1)
        } else {
            r
        }
    }

    /// The width of the editable field.
    fn input_width(&self) -> (w: usize)
        ensures
            w == self.spec_input_w(),
    {
        let inner = self.inner_range();
        let vis: i64 = inner.max.x as i64 - inner.min.x as i64;
        let pl: usize = self.prompt_char_len();
        if vis > 0 && (vis as u64) > (pl as u64) {
            ((vis as u64) - (pl as u64)) as usize
        } else {
            0
        }
    }

    /// The first character shown.
    fn compute_scroll(&self) -> (s: usize)
        requires
            self.wf(),
        ensures
            s == scroll_of(self.spec_cursor(), self.spec_input_w()),
    {
        let input_w: usize = self.input_width();
        if self.cursor >= input_w {
            self.cursor - input_w + 1
        } else {
            0
        }
    }
}


/// What an editing key does to the characters and the cursor, and the
/// action it reports.
pub open spec fn key_result(chars: Seq<char>, cursor: int, key: Key) -> (Seq<char>, int, TextInputAction) {
    match key {
        Key::Char(c) => (chars.insert(cursor, c), cursor + 1, TextInputAction::Change),
        Key::Backspace => if cursor > 0 {
            (chars.remove(cursor - 1), cursor - 1, TextInputAction::Change)
        } else {
            (chars, cursor, TextInputAction::Pass)
        },
        Key::Delete => if cursor < chars.len() {
            (chars.remove(cursor), cursor, TextInputAction::Change)
        } else {
            (chars, cursor, TextInputAction::Pass)
        },
        Key::ArrowLeft => (chars, if cursor > 0 { cursor - 1 } else { cursor }, TextInputAction::Pass),
        Key::ArrowRight => (chars, if cursor < chars.len() { cursor + 1 } else { cursor }, TextInputAction::Pass),
        Key::Home => (chars, 0, TextInputAction::Pass),
        Key::End => (chars, chars.len() as int, TextInputAction::Pass),
        _ => (chars, cursor, TextInputAction::Pass),
    }
}

/// Where a main click at `pos` puts the cursor: on the field's row, past
/// the prompt, at the clicked character (counting the scrolled-out ones),
/// no further than after the last; elsewhere the cursor stays.
pub open spec fn click_cursor(inner: Range, pos: Point, prompt_len: int, scroll: int, cursor: int, len: int) -> int {
    if pos.y == inner.min.y && inner.min.x <= pos.x < inner.max.x && pos.x - inner.min.x >= prompt_len {
        min_int(pos.x - inner.min.x - prompt_len + scroll, len)
    } else {
        cursor
    }
}

impl TextInput {
    /// The same input with new characters, cursor and action.
    fn set_state(&mut self, chars: Vec<char>, cursor: usize, action: TextInputAction)
        requires
            cursor <= chars@.len(),
            chars@.len() < usize::MAX,
        ensures
            final(self).wf(),
            final(self).spec_chars() == chars@,
            final(self).spec_cursor() == cursor,
            final(self).spec_action() == action,
            final(self).spec_bounds() == old(self).spec_bounds(),
            final(self).spec_prompt() == old(self).spec_prompt(),
            final(self).spec_box() == old(self).spec_box(),
            final(self).spec_keys() == old(self).spec_keys(),
            final(self).spec_style() == old(self).spec_style(),
    {
        self.text = string_of(&chars);
        self.chars = chars;
        self.cursor = cursor;
        self.action = action;
    }

    /// Process an input message and return the resulting action.
    ///
    /// Confirm and cancel keys report themselves; other keys edit (see
    /// `key_result`); a main mouse click on the field moves the cursor
    /// (see `click_cursor`); other messages do nothing.
    pub fn update(&mut self, msg: Msg) -> (a: TextInputAction)
        requires
            old(self).wf(),
            old(self).spec_chars().len() + 1 < usize::MAX,
        ensures
            final(self).wf(),
            a == final(self).spec_action(),
            final(self).spec_bounds() == old(self).spec_bounds(),
            final(self).spec_prompt() == old(self).spec_prompt(),
            final(self).spec_box() == old(self).spec_box(),
            final(self).spec_keys() == old(self).spec_keys(),
            final(self).spec_style() == old(self).spec_style(),
            match msg {
                Msg::KeyDown { key, .. } => if old(self).spec_keys().confirm@.contains(key) {
                    a == TextInputAction::Confirm && final(self).spec_chars() == old(self).spec_chars()
                        && final(self).spec_cursor() == old(self).spec_cursor()
                } else if old(self).spec_keys().cancel@.contains(key) {
                    a == TextInputAction::Cancel && final(self).spec_chars() == old(self).spec_chars()
                        && final(self).spec_cursor() == old(self).spec_cursor()
                } else {
                    (final(self).spec_chars(), final(self).spec_cursor(), a) == key_result(
                        old(self).spec_chars(),
                        old(self).spec_cursor(),
                        key,
                    )
                },
                Msg::Mouse { action: MouseAction::Main, pos, .. } => a == TextInputAction::Pass
                    && final(self).spec_chars() == old(self).spec_chars() && final(self).spec_cursor() == click_cursor(
                    input_inner(old(self).spec_bounds(), old(self).spec_box() is Some),
                    pos,
                    old(self).spec_prompt_len(),
                    scroll_of(old(self).spec_cursor(), old(self).spec_input_w()),
                    old(self).spec_cursor(),
                    old(self).spec_chars().len() as int,
                ),
                _ => a == TextInputAction::Pass && final(self).spec_chars() == old(self).spec_chars()
                    && final(self).spec_cursor() == old(self).spec_cursor(),
            },
    {
        let n: usize = self.chars.len();
        let c: usize = self.cursor;
        match msg {
            Msg::KeyDown { key, .. } => {
                if key_in(&self.keys.confirm, key) {
                    let chars = self.chars.clone();
                    self.set_state(chars, c, TextInputAction::Confirm);
                } else if key_in(&self.keys.cancel, key) {
                    let chars = self.chars.clone();
                    self.set_state(chars, c, TextInputAction::Cancel);
                } else {
                    let mut chars = self.chars.clone();
                    match key {
                        Key::Char(ch) => {
                            chars.insert(c, ch);
                            self.set_state(chars, c + 1, TextInputAction::Change);
                        },
                        Key::Backspace => {
                            if c > 0 {
                                chars.remove(c - 1);
                                self.set_state(chars, c - 1, TextInputAction::Change);
                            } else {
                                self.set_state(chars, c, TextInputAction::Pass);
                            }
                        },
                        Key::Delete => {
                            if c < n {
                                chars.remove(c);
                                self.set_state(chars, c, TextInputAction::Change);
                            } else {
                                self.set_state(chars, c, TextInputAction::Pass);
                            }
                        },
                        Key::ArrowLeft => {
                            let nc: usize = if c > 0 { c - 1 } else { c };
                            self.set_state(chars, nc, TextInputAction::Pass);
                        },
                        Key::ArrowRight => {
                            let nc: usize = if c < n { c + 1 } else { c };
                            self.set_state(chars, nc, TextInputAction::Pass);
                        },
                        Key::Home => {
                            self.set_state(chars, 0, TextInputAction::Pass);
                        },
                        Key::End => {
                            self.set_state(chars, n, TextInputAction::Pass);
                        },
                        _ => {
                            self.set_state(chars, c, TextInputAction::Pass);
                        },
                    }
                }
            },
            Msg::Mouse { action: MouseAction::Main, pos, .. } => {
                let inner = self.inner_range();
                let prompt_len: usize = self.prompt_char_len();
                let scroll: usize = self.compute_scroll();
                let mut nc: usize = c;
                if pos.y == inner.min.y && pos.x >= inner.min.x && pos.x < inner.max.x {
                    let click_col: i64 = pos.x as i64 - inner.min.x as i64;
                    if (click_col as u64) >= (prompt_len as u64) {
                        let col: u64 = (click_col as u64) - (prompt_len as u64);
                        let target: u64 = if (n as u64) - (scroll as u64) < col || (scroll as u64) > (n as u64) {
                            n as u64
                        } else {
                            col + scroll as u64
                        };
                        nc = target as usize;
                    }
                }
                let chars = self.chars.clone();
                self.set_state(chars, nc, TextInputAction::Pass);
            },
            _ => {
                let chars = self.chars.clone();
                self.set_state(chars, c, TextInputAction::Pass);
            },
        }
        self.action
    }
}


impl TextInput {
    /// Draw the input into `grid`: the box when there is one, the prompt
    /// from the inner range's start, then the visible part of the content
    /// with the cursor's cell in the cursor style (`_` past the end).
    pub fn draw(&self, grid: &Grid)
        requires
            self.wf(),
            grid@.spec_width() >= 0,
            grid@.spec_height() >= 0,
            grid@.max.x + grid@.max.y + self.spec_prompt_len() + 4 < i32::MAX,
            self.spec_box() matches Some(b) ==> crate::ui::box_::box_texts_ok(&b, grid@.max.x + grid@.max.y),
    {
        let gb = grid.bounds();
        let inner = match &self.box_ {
            Some(b) => b.draw(grid),
            None => grid.range_(),
        };
        let sx: i32 = inner.min.x;
        let y: i32 = inner.min.y;
        let vis: i64 = inner.max.x as i64 - inner.min.x as i64;
        let vis_w: usize = if vis >= 0 { vis as usize } else { usize::MAX };
        let prompt_len: usize = self.prompt_char_len();
        match &self.prompt {
            Some(prompt) => {
                let style = prompt.style();
                let pc = chars_of(prompt.content());
                let mut i: usize = 0;
                while i < pc.len()
                    invariant
                        i <= pc@.len(),
                        pc@.len() == prompt_len,
                        gb == grid@,
                        gb.min.x >= 0,
                        gb.min.y >= 0,
                        -1 <= sx <= gb.spec_width() + 1,
                        -1 <= y <= gb.spec_height() + 1,
                        grid@.max.x + grid@.max.y + prompt_len + 4 < i32::MAX,
                    decreases pc@.len() - i,
                {
                    if i >= vis_w {
                        break;
                    }
                    let p = Point::new(sx + i as i32, y);
                    if grid.contains(p) {
                        grid.set(p, Cell::blank().with_char(pc[i]).with_style(style));
                    }
                    i = i + 1;
                }
            },
            None => {},
        }
        let input_w: usize = if vis_w > prompt_len { vis_w - prompt_len } else { 0 };
        if input_w == 0 {
            return;
        }
        let scroll: usize = self.compute_scroll();
        let cursor_pos: usize = self.cursor;
        let n: usize = self.chars.len();
        let mut col: usize = 0;
        while col < input_w
            invariant
                gb == grid@,
                gb.min.x >= 0,
                gb.min.y >= 0,
                -1 <= sx <= gb.spec_width() + 1,
                -1 <= y <= gb.spec_height() + 1,
                grid@.max.x + grid@.max.y + prompt_len + 4 < i32::MAX,
                sx + prompt_len + col <= gb.spec_width() + prompt_len + 1,
                n == self.chars@.len(),
            decreases input_w - col,
        {
            let x: i32 = sx + prompt_len as i32 + col as i32;
            let p = Point::new(x, y);
            if !grid.contains(p) {
                break;
            }
            let char_idx: u128 = scroll as u128 + col as u128;
            let is_cursor: bool = char_idx == cursor_pos as u128;
            let style = if is_cursor { self.style.cursor } else { self.style.text };
            let ch: char = if char_idx < n as u128 {
                self.chars[char_idx as usize]
            } else if is_cursor {
                '_'
            } else {
                ' '
            };
            grid.set(p, Cell::blank().with_char(ch).with_style(style));
            col = col + 1;
        }
    }
}

/// In a text of one-byte characters, a byte offset within the text is the
/// index of the character there.
pub proof fn lemma_one_byte_offsets(cs: Seq<char>, pos: int)
    requires
        forall|i: int| 0 <= i < cs.len() ==> spec_utf8_len(#[trigger] cs[i]) == 1,
        0 <= pos <= cs.len(),
    ensures
        chars_before_byte(cs, pos) == pos,
    decreases cs.len(),
{
    if cs.len() > 0 && pos > 0 {
        assert(spec_utf8_len(cs[0]) == 1);
        let rest = cs.drop_first();
        assert forall|i: int| 0 <= i < rest.len() implies spec_utf8_len(#[trigger] rest[i]) == 1 by {
            assert(rest[i] == cs[i + 1]);
        }
        lemma_one_byte_offsets(rest, pos - 1);
    } else if cs.len() > 0 {
        assert(spec_utf8_len(cs[0]) == 1);
    }
}

/// Setting the cursor at a byte offset of a text of one-byte characters,
/// then typing a character, inserts it at that offset and leaves the
/// cursor after it.
pub proof fn lemma_set_cursor_then_insert(cs: Seq<char>, pos: int, c: char)
    requires
        forall|i: int| 0 <= i < cs.len() ==> spec_utf8_len(#[trigger] cs[i]) == 1,
        0 <= pos <= cs.len(),
    ensures
        key_result(cs, chars_before_byte(cs, pos) as int, Key::Char(c)).0 == cs.subrange(0, pos) + seq![c]
            + cs.subrange(pos, cs.len() as int),
        key_result(cs, chars_before_byte(cs, pos) as int, Key::Char(c)).1 == pos + 1,
{
    lemma_one_byte_offsets(cs, pos);
    assert(cs.insert(pos, c) =~= cs.subrange(0, pos) + seq![c] + cs.subrange(pos, cs.len() as int));
}

} // verus!
