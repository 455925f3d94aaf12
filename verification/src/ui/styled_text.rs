//! Text with optional `@`-prefixed style markups.
//!
//! When at least one markup is registered, the text follows this protocol:
//!
//! | Sequence   | Effect |
//! |------------|--------|
//! | `@X`       | If `X` is a registered marker, switch to its style (zero-width). |
//! | `@N`       | Reset to the base style (zero-width). |
//! | `@@`       | Emit a literal `@`. |
//! | `@?`       | For any other `?`, both characters are consumed and the base style is used. |
//! | `@` at end | Ignored. |
use vstd::prelude::*;

use crate::cell::Cell;
use crate::geom::{Point, Range, pt, rg, max_int, min_int};
use crate::grid::Grid;
use crate::style::Style;
use crate::util::{chars_of, string_of};
use crate::rl::vault::split_lines;

verus! {

/// The style a marker selects: the base style for `N` and for unknown
/// markers, else the registered one.
pub open spec fn marker_style(base: Style, mk: Seq<(char, Style)>, r: char) -> Style {
    if r == 'N' {
        base
    } else {
        match lookup(mk, r) {
            Some(s) => s,
            None => base,
        }
    }
}

/// The style registered for marker `r`, the last registration winning.
pub open spec fn lookup(mk: Seq<(char, Style)>, r: char) -> Option<Style>
    decreases mk.len(),
{
    if mk.len() == 0 {
        None
    } else if mk.last().0 == r {
        Some(mk.last().1)
    } else {
        lookup(mk.drop_last(), r)
    }
}

/// Whether `r` takes part in markup processing: after an `@`, anything but
/// another `@`; otherwise only `@`.
pub open spec fn proc_markup(procm: bool, r: char) -> bool {
    if procm {
        r != '@'
    } else {
        r == '@'
    }
}

/// The rendering state: column, row, widest row so far, current style, and
/// whether an `@` is pending.
pub type RenderState = (int, int, int, Style, bool);

/// One step of rendering: what the state becomes, and the cell emitted if
/// any.
pub open spec fn render_step(s: RenderState, ch: char, base: Style, mk: Seq<(char, Style)>, on: bool) -> (
    RenderState,
    Option<(Point, Cell)>,
) {
    let (x, y, xmax, st, procm) = s;
    if ch == '\r' {
        (s, None)
    } else if on && proc_markup(procm, ch) {
        let st2 = if procm { marker_style(base, mk, ch) } else { st };
        ((x, y, xmax, st2, !procm), None)
    } else if ch == '\n' {
        ((0, y + 1, if x > xmax { x } else { xmax }, st, false), None)
    } else {
        ((x + 1, y, xmax, st, false), Some((pt(x, y), Cell { ch, style: st })))
    }
}

/// The state after rendering `t`, and the cells emitted in order.
pub open spec fn render(t: Seq<char>, base: Style, mk: Seq<(char, Style)>, on: bool) -> (RenderState, Seq<(Point, Cell)>)
    decreases t.len(),
{
    if t.len() == 0 {
        ((0, 0, 0, base, false), Seq::empty())
    } else {
        let (s, out) = render(t.drop_last(), base, mk, on);
        let (s2, e) = render_step(s, t.last(), base, mk, on);
        match e {
            Some(c) => (s2, out.push(c)),
            None => (s2, out),
        }
    }
}

/// The size a final rendering state gives: the widest row, and the number
/// of rows unless nothing was drawn.
pub open spec fn render_size(s: RenderState) -> Point {
    let (x, y, xmax, _st, _p) = s;
    let xm = if x > xmax { x } else { xmax };
    pt(xm, if xm > 0 || y > 0 { y + 1 } else { y })
}

/// The state of word wrapping: output so far, pending word, column,
/// whether a separator is due, visible length of the pending word, whether
/// an `@` is pending, and whether the line has no word yet.
pub type WrapState = (Seq<char>, Seq<char>, int, bool, int, bool, bool);

/// Flush the pending word after a separator, when one is due: a newline
/// when the word does not fit on the line, else a space.
pub open spec fn flush_word(s: Seq<char>, word: Seq<char>, wantspace: bool, wlen: int, col: int, width: int) -> Seq<char> {
    if wantspace {
        s.push(if wlen + col + 1 > width { '\n' } else { ' ' }) + word
    } else {
        s + word
    }
}

/// One step of word wrapping to `width`.
pub open spec fn wrap_step(w: WrapState, ch: char, on: bool, width: int) -> WrapState {
    let (s, word, col, wantspace, wlen, procm, start) = w;
    if ch == '\r' {
        w
    } else if on && proc_markup(procm, ch) && ch != '\n' && ch != ' ' {
        if wlen == 0 {
            (s.push(ch), word, col, wantspace, wlen, !procm, start)
        } else {
            (s, word.push(ch), col, wantspace, wlen, !procm, start)
        }
    } else {
        let procm2 = if on { proc_markup(procm, ch) && !procm } else { procm };
        if ch == ' ' {
            if start {
                (s.push(' '), word, col + 1, wantspace, wlen, procm2, start)
            } else if wlen > 0 {
                let newline = wlen + col + 1 > width;
                let col2 = if wantspace {
                    if newline { 0 } else { col + 1 }
                } else {
                    col
                };
                (flush_word(s, word, wantspace, wlen, col, width), Seq::empty(), col2 + wlen, true, 0, procm2, start)
            } else {
                (s, word, col, wantspace, wlen, procm2, start)
            }
        } else if ch == '\n' {
            let s2 = if wlen > 0 { flush_word(s, word, wantspace, wlen, col, width) } else { s };
            (s2.push('\n'), Seq::empty(), 0, false, 0, procm2, true)
        } else {
            (s, word.push(ch), col, wantspace, wlen + 1, procm2, false)
        }
    }
}

/// The wrapping state after `t`.
pub open spec fn wrap(t: Seq<char>, on: bool, width: int) -> WrapState
    decreases t.len(),
{
    if t.len() == 0 {
        (Seq::empty(), Seq::empty(), 0, false, 0, false, true)
    } else {
        wrap_step(wrap(t.drop_last(), on, width), t.last(), on, width)
    }
}

/// `s` without its trailing spaces and newlines.
pub open spec fn trim_end_sn(s: Seq<char>) -> Seq<char>
    decreases s.len(),
{
    if s.len() > 0 && (s.last() == ' ' || s.last() == '\n') {
        trim_end_sn(s.drop_last())
    } else {
        s
    }
}

/// The text `t` wrapped to `width` (taken as an `i32`, as the wrapping
/// computes): the last pending word flushed, trailing spaces and newlines
/// trimmed.
pub open spec fn wrapped(t: Seq<char>, on: bool, width: int) -> Seq<char> {
    let (s, word, col, wantspace, wlen, _p, _st) = wrap(t, on, width);
    trim_end_sn(if wlen > 0 { flush_word(s, word, wantspace, wlen, col, width) } else { s })
}

/// `t` without its carriage returns.
pub open spec fn strip_cr(t: Seq<char>) -> Seq<char>
    decreases t.len(),
{
    if t.len() == 0 {
        t
    } else if t.last() == '\r' {
        strip_cr(t.drop_last())
    } else {
        strip_cr(t.drop_last()).push(t.last())
    }
}

/// The state of splitting into lines with markups: the marker active at
/// the start of the current line, the marker active now, whether an `@`
/// is pending, the lines done, and the current line's characters.
pub type LinesState = (char, char, bool, Seq<Seq<char>>, Seq<char>);

/// A line as emitted: carriage returns removed, prefixed by `@X` when
/// marker `X` other than `N` was active at its start.
pub open spec fn prefixed_line(start: char, line: Seq<char>) -> Seq<char> {
    if start != 'N' {
        seq!['@', start] + strip_cr(line)
    } else {
        strip_cr(line)
    }
}

/// One step of splitting into lines with markups.
pub open spec fn lines_step(l: LinesState, r: char) -> LinesState {
    let (mstart, mrune, procm, done, cur) = l;
    if r == '\n' {
        (mrune, mrune, false, done.push(prefixed_line(mstart, cur)), Seq::empty())
    } else if procm {
        (mstart, if r != '@' && r != ' ' && r != '\r' { r } else { mrune }, false, done, cur.push(r))
    } else {
        (mstart, mrune, r == '@', done, cur.push(r))
    }
}

/// The splitting state after `t`.
pub open spec fn lines_scan(t: Seq<char>) -> LinesState
    decreases t.len(),
{
    if t.len() == 0 {
        ('N', 'N', false, Seq::empty(), Seq::empty())
    } else {
        lines_step(lines_scan(t.drop_last()), t.last())
    }
}

/// The lines of `t` with markups carried over: a last line is emitted
/// only when text follows the last newline.
pub open spec fn markup_lines(t: Seq<char>) -> Seq<Seq<char>> {
    let (mstart, _m, _p, done, cur) = lines_scan(t);
    if t.len() > 0 && t.last() == '\n' || t.len() == 0 {
        done
    } else {
        done.push(prefixed_line(mstart, cur))
    }
}

/// Text with optional `@`-prefix style markups.
#[derive(Debug)]
pub struct StyledText {
    text: String,
    style: Style,
    markups: Option<Vec<(char, Style)>>,
}

/// A copy of a markup list.
fn copy_markups(m: &Vec<(char, Style)>) -> (c: Vec<(char, Style)>)
    ensures
        c@ == m@,
{
    let mut c: Vec<(char, Style)> = Vec::new();
    let mut i: usize = 0;
    while i < m.len()
        invariant
            i <= m@.len(),
            c@ == m@.subrange(0, i as int),
        decreases m@.len() - i,
    {
        c.push(m[i]);
        i = i + 1;
    }
    c
}

impl Clone for StyledText {
    fn clone(&self) -> (c: StyledText)
        ensures
            c.spec_text() == self.spec_text(),
            c.spec_style() == self.spec_style(),
            c.markup_on() == self.markup_on(),
            c.spec_markups() == self.spec_markups(),
    {
        let markups = match &self.markups {
            Some(m) => Some(copy_markups(m)),
            None => None,
        };
        StyledText { text: self.text.clone(), style: self.style, markups }
    }
}

impl StyledText {
    /// The text content.
    pub closed spec fn spec_text(&self) -> Seq<char> {
        self.text@
    }

    /// The base style.
    pub closed spec fn spec_style(&self) -> Style {
        self.style
    }

    /// Whether the markup protocol applies.
    pub closed spec fn markup_on(&self) -> bool {
        self.markups is Some
    }

    /// The registered markers and their styles, in registration order.
    pub closed spec fn spec_markups(&self) -> Seq<(char, Style)> {
        match self.markups {
            Some(m) => m@,
            None => Seq::empty(),
        }
    }

    /// The cells the text renders to, in order, with their positions.
    pub open spec fn spec_cells(&self) -> Seq<(Point, Cell)> {
        render(self.spec_text(), self.spec_style(), self.spec_markups(), self.markup_on()).1
    }

    /// The minimum size that fits the rendered text.
    pub open spec fn spec_size(&self) -> Point {
        render_size(render(self.spec_text(), self.spec_style(), self.spec_markups(), self.markup_on()).0)
    }

    /// A styled text of a plain string in the default style.
    pub fn text(s: &str) -> (t: StyledText)
        ensures
            t.spec_text() == s@,
            t.spec_style() == Style::spec_default(),
            !t.markup_on(),
    {
        StyledText { text: s.to_owned(), style: Style::new(), markups: None }
    }

    /// A styled text of an already formatted string in the default style.
    pub fn textf(s: String) -> (t: StyledText)
        ensures
            t.spec_text() == s@,
            t.spec_style() == Style::spec_default(),
            !t.markup_on(),
    {
        StyledText { text: s, style: Style::new(), markups: None }
    }

    /// A styled text with the given text and style.
    pub fn new(text: &str, style: Style) -> (t: StyledText)
        ensures
            t.spec_text() == text@,
            t.spec_style() == style,
            !t.markup_on(),
    {
        StyledText { text: text.to_owned(), style, markups: None }
    }

    /// The same styled text with new content.
    pub fn with_text(self, text: &str) -> (t: StyledText)
        ensures
            t.spec_text() == text@,
            t.spec_style() == self.spec_style(),
            t.markup_on() == self.markup_on(),
            t.spec_markups() == self.spec_markups(),
    {
        StyledText { text: text.to_owned(), ..self }
    }

    /// The same styled text with new, already formatted, content.
    pub fn with_textf(self, text: String) -> (t: StyledText)
        ensures
            t.spec_text() == text@,
            t.spec_style() == self.spec_style(),
            t.markup_on() == self.markup_on(),
            t.spec_markups() == self.spec_markups(),
    {
        StyledText { text, ..self }
    }

    /// The same styled text with new content and base style.
    pub fn with(self, text: &str, style: Style) -> (t: StyledText)
        ensures
            t.spec_text() == text@,
            t.spec_style() == style,
            t.markup_on() == self.markup_on(),
            t.spec_markups() == self.spec_markups(),
    {
        StyledText { text: text.to_owned(), style, ..self }
    }

    /// The same styled text with a new base style.
    pub fn with_style(self, style: Style) -> (t: StyledText)
        ensures
            t.spec_text() == self.spec_text(),
            t.spec_style() == style,
            t.markup_on() == self.markup_on(),
            t.spec_markups() == self.spec_markups(),
    {
        StyledText { style, ..self }
    }

    /// Register a markup: `@marker` in the text switches to `style`.
    ///
    /// Space, newline and carriage return markers are ignored. The marker
    /// `N` sets the base style instead, and turns the protocol on.
    pub fn with_markup(self, marker: char, style: Style) -> (t: StyledText)
        ensures
            t.spec_text() == self.spec_text(),
            marker == ' ' || marker == '\n' || marker == '\r' ==> t.spec_style() == self.spec_style()
                && t.markup_on() == self.markup_on() && t.spec_markups() == self.spec_markups(),
            marker == 'N' ==> t.spec_style() == style && t.markup_on() && t.spec_markups() == self.spec_markups(),
            !(marker == ' ' || marker == '\n' || marker == '\r' || marker == 'N') ==> t.spec_style()
                == self.spec_style() && t.markup_on() && t.spec_markups() == self.spec_markups().push(
                (marker, style),
            ),
    {
        if marker == ' ' || marker == '\n' || marker == '\r' {
            return self;
        }
        let StyledText { text, style: base, markups } = self;
        if marker == 'N' {
            let m = match markups {
                Some(m) => m,
                None => Vec::new(),
            };
            return StyledText { text, style, markups: Some(m) };
        }
        let mut m = match markups {
            Some(m) => m,
            None => Vec::new(),
        };
        m.push((marker, style));
        StyledText { text, style: base, markups: Some(m) }
    }

    /// Set all markups at once, in order (a later entry for a marker wins);
    /// an empty list turns the protocol off.
    pub fn with_markups(self, markups: Vec<(char, Style)>) -> (t: StyledText)
        ensures
            t.spec_text() == self.spec_text(),
            t.spec_style() == self.spec_style(),
            t.markup_on() == (markups@.len() > 0),
            t.markup_on() ==> t.spec_markups() == markups@,
    {
        let on: bool = markups.len() > 0;
        StyledText { markups: if on { Some(markups) } else { None }, ..self }
    }

    /// The raw text content.
    pub fn content(&self) -> (s: &str)
        ensures
            s@ == self.spec_text(),
    {
        self.text.as_str()
    }

    /// The base style.
    pub fn style(&self) -> (s: Style)
        ensures
            s == self.spec_style(),
    {
        self.style
    }

    /// The registered markers and styles, in registration order (empty if
    /// none).
    pub fn markups(&self) -> (m: Vec<(char, Style)>)
        ensures
            m@ == self.spec_markups(),
    {
        match &self.markups {
            Some(m) => copy_markups(m),
            None => Vec::new(),
        }
    }

    /// The style of marker `r`.
    fn markup_style(&self, r: char) -> (s: Style)
        ensures
            s == marker_style(self.spec_style(), self.spec_markups(), r),
    {
        if r == 'N' {
            return self.style;
        }
        match &self.markups {
            Some(m) => {
                let mut i: usize = m.len();
                proof {
                    assert(m@.subrange(0, m@.len() as int) =~= m@);
                }
                while i > 0
                    invariant
                        i <= m@.len(),
                        r != 'N',
                        self.spec_markups() == m@,
                        lookup(m@, r) == lookup(m@.subrange(0, i as int), r),
                    decreases i,
                {
                    proof {
                        assert(m@.subrange(0, i as int).drop_last() =~= m@.subrange(0, i - 1));
                    }
                    if m[i - 1].0 == r {
                        proof {
                            assert(m@.subrange(0, i as int).last() == m@[i - 1]);
                            assert(lookup(m@.subrange(0, i as int), r) == Some(m@[i - 1].1));
                            assert(self.spec_markups() == m@);
                        }
                        return m[i - 1].1;
                    }
                    i = i - 1;
                }
                self.style
            },
            None => self.style,
        }
    }

    /// The cells the text renders to, in order with their positions, and
    /// the minimum size that fits them.
    pub fn render_cells(&self) -> (res: (Vec<(Point, Cell)>, Point))
        requires
            self.spec_text().len() < i32::MAX,
        ensures
            res.0@ == self.spec_cells(),
            res.1 == self.spec_size(),
    {
        let t = chars_of(self.text.as_str());
        let ghost base = self.style;
        let ghost mk = self.spec_markups();
        let on: bool = self.markups.is_some();
        let mut out: Vec<(Point, Cell)> = Vec::new();
        let mut x: i32 = 0;
        let mut y: i32 = 0;
        let mut xmax: i32 = 0;
        let mut st: Style = self.style;
        let mut procm: bool = false;
        let mut k: usize = 0;
        proof {
            assert(t@.subrange(0, 0) =~= Seq::<char>::empty());
        }
        while k < t.len()
            invariant
                t@ == self.spec_text(),
                t@.len() < i32::MAX,
                base == self.spec_style(),
                mk == self.spec_markups(),
                on == self.markup_on(),
                k <= t@.len(),
                0 <= x <= k,
                0 <= y <= k,
                0 <= xmax <= k,
                render(t@.subrange(0, k as int), base, mk, on) == ((x as int, y as int, xmax as int, st, procm), out@),
            decreases t@.len() - k,
        {
            let ch = t[k];
            proof {
                assert(t@.subrange(0, k + 1).drop_last() =~= t@.subrange(0, k as int));
            }
            if ch == '\r' {
            } else if on && (if procm { ch != '@' } else { ch == '@' }) {
                if procm {
                    st = self.markup_style(ch);
                }
                procm = !procm;
            } else if ch == '\n' {
                if x > xmax {
                    xmax = x;
                }
                x = 0;
                y = y + 1;
                procm = false;
            } else {
                out.push((Point::new(x, y), Cell { ch, style: st }));
                x = x + 1;
                procm = false;
            }
            k = k + 1;
        }
        proof {
            assert(t@.subrange(0, t@.len() as int) =~= t@);
        }
        let xm: i32 = if x > xmax { x } else { xmax };
        let h: i32 = if xm > 0 || y > 0 { y + 1 } else { y };
        (out, Point::new(xm, h))
    }

    /// Call `callback` on each rendered cell with its position, in order;
    /// returns the minimum size that fits the text.
    pub fn iter<F: FnMut(Point, Cell)>(&self, callback: F) -> (size: Point)
        requires
            self.spec_text().len() < i32::MAX,
            forall|s: F, p: Point, c: Cell| #[trigger] s.requires((p, c)),
        ensures
            size == self.spec_size(),
    {
        let mut callback = callback;
        let (cells, size) = self.render_cells();
        let mut i: usize = 0;
        while i < cells.len()
            invariant
                i <= cells@.len(),
                forall|s: F, p: Point, c: Cell| #[trigger] s.requires((p, c)),
            decreases cells@.len() - i,
        {
            let (p, c) = cells[i];
            callback(p, c);
            i = i + 1;
        }
        size
    }

    /// The minimum bounding size that fits the text.
    pub fn size(&self) -> (p: Point)
        requires
            self.spec_text().len() < i32::MAX,
        ensures
            p == self.spec_size(),
    {
        self.render_cells().1
    }
}


/// Append the pending word after its separator, as `flush_word` says.
fn push_word(s: &mut Vec<char>, word: &Vec<char>, wantspace: bool, wlen: i32, col: i32, width: i32)
    requires
        wlen + col + 1 <= i32::MAX,
        wlen >= 0,
        col >= 0,
    ensures
        final(s)@ == flush_word(old(s)@, word@, wantspace, wlen as int, col as int, width as int),
{
    if wantspace {
        if wlen + col + 1 > width {
            s.push('\n');
        } else {
            s.push(' ');
        }
    }
    let ghost s0 = s@;
    let mut i: usize = 0;
    while i < word.len()
        invariant
            i <= word@.len(),
            s@ == s0 + word@.subrange(0, i as int),
        decreases word@.len() - i,
    {
        s.push(word[i]);
        i = i + 1;
        proof {
            assert(s@ =~= s0 + word@.subrange(0, i as int));
        }
    }
    proof {
        assert(word@.subrange(0, word@.len() as int) =~= word@);
    }
}

/// `s` without its trailing spaces and newlines.
fn trim_end_chars(s: &mut Vec<char>)
    ensures
        final(s)@ == trim_end_sn(old(s)@),
{
    while s.len() > 0 && (s[s.len() - 1] == ' ' || s[s.len() - 1] == '\n')
        invariant
            trim_end_sn(old(s)@) == trim_end_sn(s@),
        decreases s@.len(),
    {
        s.pop();
    }
}

/// `t[from..to]` without its carriage returns.
fn strip_cr_range(t: &Vec<char>, from: usize, to: usize) -> (r: Vec<char>)
    requires
        from <= to <= t@.len(),
    ensures
        r@ == strip_cr(t@.subrange(from as int, to as int)),
{
    let mut r: Vec<char> = Vec::new();
    let mut i: usize = from;
    proof {
        assert(t@.subrange(from as int, from as int) =~= Seq::<char>::empty());
    }
    while i < to
        invariant
            from <= i <= to <= t@.len(),
            r@ == strip_cr(t@.subrange(from as int, i as int)),
        decreases to - i,
    {
        proof {
            assert(t@.subrange(from as int, i + 1).drop_last() =~= t@.subrange(from as int, i as int));
        }
        if t[i] != '\r' {
            r.push(t[i]);
        }
        i = i + 1;
    }
    r
}

impl StyledText {
    /// Word-wrap the text to `width` columns.
    ///
    /// Words are kept whole and separated by single spaces or newlines;
    /// leading spaces of a line are kept; markup sequences take no width
    /// (`@@` takes one); trailing spaces and newlines are trimmed. A width
    /// of 0 leaves the text as it is.
    pub fn format(&self, width: usize) -> (t: StyledText)
        requires
            self.spec_text().len() < i32::MAX,
        ensures
            width == 0 ==> t.spec_text() == self.spec_text(),
            width != 0 ==> t.spec_text() == wrapped(self.spec_text(), self.markup_on(), (width as i32) as int),
            t.spec_style() == self.spec_style(),
            t.markup_on() == self.markup_on(),
            t.spec_markups() == self.spec_markups(),
    {
        if width == 0 {
            return self.clone();
        }
        let width: i32 = width as i32;
        let t = chars_of(self.text.as_str());
        let on: bool = self.markups.is_some();
        let mut s: Vec<char> = Vec::new();
        let mut word: Vec<char> = Vec::new();
        let mut col: i32 = 0;
        let mut wantspace: bool = false;
        let mut wlen: i32 = 0;
        let mut procm: bool = false;
        let mut start: bool = true;
        let mut k: usize = 0;
        proof {
            assert(t@.subrange(0, 0) =~= Seq::<char>::empty());
        }
        while k < t.len()
            invariant
                t@ == self.spec_text(),
                t@.len() < i32::MAX,
                on == self.markup_on(),
                k <= t@.len(),
                0 <= col,
                0 <= wlen,
                col + wlen <= k,
                wrap(t@.subrange(0, k as int), on, width as int) == (s@, word@, col as int, wantspace, wlen as int, procm, start),
            decreases t@.len() - k,
        {
            let ch = t[k];
            proof {
                assert(t@.subrange(0, k + 1).drop_last() =~= t@.subrange(0, k as int));
            }
            let pm: bool = if procm { ch != '@' } else { ch == '@' };
            if ch == '\r' {
            } else if on && pm && ch != '\n' && ch != ' ' {
                if wlen == 0 {
                    s.push(ch);
                } else {
                    word.push(ch);
                }
                procm = !procm;
            } else {
                if on {
                    procm = pm && !procm;
                }
                if ch == ' ' {
                    if start {
                        s.push(' ');
                        col = col + 1;
                    } else if wlen > 0 {
                        let newline: bool = wlen + col + 1 > width;
                        let col2: i32 = if wantspace {
                            if newline { 0 } else { col + 1 }
                        } else {
                            col
                        };
                        push_word(&mut s, &word, wantspace, wlen, col, width);
                        col = col2 + wlen;
                        word = Vec::new();
                        wlen = 0;
                        wantspace = true;
                    }
                } else if ch == '\n' {
                    if wlen > 0 {
                        push_word(&mut s, &word, wantspace, wlen, col, width);
                    }
                    s.push('\n');
                    word = Vec::new();
                    col = 0;
                    wantspace = false;
                    wlen = 0;
                    start = true;
                } else {
                    word.push(ch);
                    wlen = wlen + 1;
                    start = false;
                }
            }
            k = k + 1;
        }
        proof {
            assert(t@.subrange(0, t@.len() as int) =~= t@);
        }
        if wlen > 0 {
            push_word(&mut s, &word, wantspace, wlen, col, width);
        }
        trim_end_chars(&mut s);
        let markups = match &self.markups {
            Some(m) => Some(copy_markups(m)),
            None => None,
        };
        StyledText { text: string_of(&s), style: self.style, markups }
    }

    /// Split the text into lines.
    ///
    /// Without markups, the text is split at each newline (a trailing
    /// newline gives a last, empty, line) and carriage returns are removed.
    /// With markups, a line that starts while a marker other than `N` is
    /// active is prefixed with `@` and that marker, so that each line
    /// renders alone with the right initial style; no line follows a
    /// trailing newline.
    pub fn lines(&self) -> (v: Vec<StyledText>)
        ensures
            !self.markup_on() ==> v@.len() == split_lines(self.spec_text()).len() && forall|i: int| 0 <= i < v@.len()
                ==> (#[trigger] v@[i]).spec_text() == strip_cr(split_lines(self.spec_text())[i]),
            self.markup_on() ==> v@.len() == markup_lines(self.spec_text()).len() && forall|i: int| 0 <= i < v@.len()
                ==> (#[trigger] v@[i]).spec_text() == markup_lines(self.spec_text())[i],
            forall|i: int| 0 <= i < v@.len() ==> (#[trigger] v@[i]).spec_style() == self.spec_style()
                && v@[i].markup_on() == self.markup_on() && v@[i].spec_markups() == self.spec_markups(),
    {
        let t = chars_of(self.text.as_str());
        let on: bool = self.markups.is_some();
        let mut out: Vec<StyledText> = Vec::new();
        let mut from: usize = 0;
        let mut mstart: char = 'N';
        let mut mrune: char = 'N';
        let mut procm: bool = false;
        let mut k: usize = 0;
        let ghost mut done: Seq<Seq<char>> = Seq::empty();
        proof {
            assert(t@.subrange(0, 0) =~= Seq::<char>::empty());
        }
        while k < t.len()
            invariant
                t@ == self.spec_text(),
                on == self.markup_on(),
                k <= t@.len(),
                from <= k,
                !on ==> split_lines(t@.subrange(0, k as int)).len() == out@.len() + 1,
                !on ==> forall|i: int| 0 <= i < out@.len() ==> (#[trigger] out@[i]).spec_text() == strip_cr(
                    split_lines(t@.subrange(0, k as int))[i],
                ),
                !on ==> split_lines(t@.subrange(0, k as int)).last() == t@.subrange(from as int, k as int),
                on ==> lines_scan(t@.subrange(0, k as int)) == (mstart, mrune, procm, done, t@.subrange(
                    from as int,
                    k as int,
                )),
                on ==> done.len() == out@.len(),
                on ==> forall|i: int| 0 <= i < out@.len() ==> (#[trigger] out@[i]).spec_text() == done[i],
                forall|i: int| 0 <= i < out@.len() ==> (#[trigger] out@[i]).spec_style() == self.spec_style()
                    && out@[i].markup_on() == self.markup_on() && out@[i].spec_markups() == self.spec_markups(),
            decreases t@.len() - k,
        {
            let r = t[k];
            proof {
                assert(t@.subrange(0, k + 1).drop_last() =~= t@.subrange(0, k as int));
                crate::rl::vault::lemma_split_prefix_pub(t@, k as int);
            }
            if r == '\n' {
                let mut line = strip_cr_range(&t, from, k);
                if on && mstart != 'N' {
                    let mut pre: Vec<char> = Vec::new();
                    pre.push('@');
                    pre.push(mstart);
                    let mut j: usize = 0;
                    while j < line.len()
                        invariant
                            j <= line@.len(),
                            pre@ == seq!['@', mstart] + line@.subrange(0, j as int),
                        decreases line@.len() - j,
                    {
                        pre.push(line[j]);
                        j = j + 1;
                        proof {
                            assert(pre@ =~= seq!['@', mstart] + line@.subrange(0, j as int));
                        }
                    }
                    proof {
                        assert(line@.subrange(0, line@.len() as int) =~= line@);
                    }
                    line = pre;
                }
                let markups = match &self.markups {
                    Some(m) => Some(copy_markups(m)),
                    None => None,
                };
                proof {
                    if on {
                        done = done.push(prefixed_line(mstart, t@.subrange(from as int, k as int)));
                    }
                }
                out.push(StyledText { text: string_of(&line), style: self.style, markups });
                if on {
                    mstart = mrune;
                    procm = false;
                }
                from = k + 1;
                proof {
                    assert(t@.subrange(from as int, k + 1) =~= Seq::<char>::empty());
                }
            } else {
                if on {
                    if procm {
                        procm = false;
                        if r != '@' && r != ' ' && r != '\r' {
                            mrune = r;
                        }
                    } else if r == '@' {
                        procm = true;
                    }
                }
                proof {
                    assert(t@.subrange(from as int, k + 1) =~= t@.subrange(from as int, k as int).push(r));
                }
            }
            k = k + 1;
        }
        proof {
            assert(t@.subrange(0, t@.len() as int) =~= t@);
        }
        if !on || from != t.len() {
            let mut line = strip_cr_range(&t, from, t.len());
            if on && mstart != 'N' {
                let mut pre: Vec<char> = Vec::new();
                pre.push('@');
                pre.push(mstart);
                let mut j: usize = 0;
                while j < line.len()
                    invariant
                        j <= line@.len(),
                        pre@ == seq!['@', mstart] + line@.subrange(0, j as int),
                    decreases line@.len() - j,
                {
                    pre.push(line[j]);
                    j = j + 1;
                    proof {
                        assert(pre@ =~= seq!['@', mstart] + line@.subrange(0, j as int));
                    }
                }
                proof {
                    assert(line@.subrange(0, line@.len() as int) =~= line@);
                }
                line = pre;
            }
            let markups = match &self.markups {
                Some(m) => Some(copy_markups(m)),
                None => None,
            };
            out.push(StyledText { text: string_of(&line), style: self.style, markups });
        }
        out
    }
}


/// The rendering keeps its counters within the text's length, and every
/// cell emitted so far lies before the current position: on an earlier
/// row within the widest row, or on the current row before the column.
proof fn lemma_render_bounds(t: Seq<char>, base: Style, mk: Seq<(char, Style)>, on: bool)
    requires
        t.len() < i32::MAX,
    ensures
        ({
            let (s, out) = render(t, base, mk, on);
            let (x, y, xmax, _st, _p) = s;
            &&& 0 <= x <= t.len()
            &&& 0 <= y <= t.len()
            &&& 0 <= xmax <= t.len()
            &&& forall|k: int| 0 <= k < out.len() ==> {
                let p = #[trigger] out[k].0;
                &&& 0 <= p.x
                &&& 0 <= p.y <= y
                &&& (p.y < y ==> p.x < xmax)
                &&& (p.y == y ==> p.x < x)
            }
        }),
    decreases t.len(),
{
    if t.len() > 0 {
        lemma_render_bounds(t.drop_last(), base, mk, on);
    }
}

/// Every cell a styled text renders to lies within its size.
pub proof fn lemma_cells_within_size(st: &StyledText)
    requires
        st.spec_text().len() < i32::MAX,
    ensures
        forall|k: int| 0 <= k < st.spec_cells().len() ==> {
            let p = (#[trigger] st.spec_cells()[k]).0;
            0 <= p.x < st.spec_size().x && 0 <= p.y < st.spec_size().y
        },
{
    lemma_render_bounds(st.spec_text(), st.spec_style(), st.spec_markups(), st.markup_on());
}

impl StyledText {
    /// Draw the text into `grid` from its origin: each rendered cell that
    /// falls inside the grid is set. Returns the range of the cells set,
    /// the empty range at the origin when none was.
    pub fn draw(&self, grid: &Grid) -> (r: Range)
        requires
            self.spec_text().len() < i32::MAX,
            grid@.min.x + self.spec_text().len() < i32::MAX,
            grid@.min.y + self.spec_text().len() < i32::MAX,
        ensures
            forall|k: int| 0 <= k < self.spec_cells().len() && grid.has((#[trigger] self.spec_cells()[k]).0)
                ==> r.spec_contains(self.spec_cells()[k].0),
            (forall|k: int| 0 <= k < self.spec_cells().len() ==> !grid.has(#[trigger] self.spec_cells()[k].0))
                ==> r == rg(0, 0, 0, 0),
    {
        let (cells, _size) = self.render_cells();
        proof {
            lemma_render_bounds(self.spec_text(), self.spec_style(), self.spec_markups(), self.markup_on());
        }
        let b = grid.bounds();
        let mut min_x: i32 = i32::MAX;
        let mut min_y: i32 = i32::MAX;
        let mut max_x: i32 = i32::MIN;
        let mut max_y: i32 = i32::MIN;
        let mut any: bool = false;
        let mut i: usize = 0;
        while i < cells.len()
            invariant
                cells@ == self.spec_cells(),
                b == grid@,
                b.min.x >= 0,
                b.min.y >= 0,
                grid@.min.x + self.spec_text().len() < i32::MAX,
                grid@.min.y + self.spec_text().len() < i32::MAX,
                forall|k: int| 0 <= k < cells@.len() ==> {
                    let p = #[trigger] cells@[k].0;
                    0 <= p.x <= self.spec_text().len() && 0 <= p.y <= self.spec_text().len()
                },
                i <= cells@.len(),
                any ==> min_x <= max_x - 1 && min_y <= max_y - 1,
                forall|k: int| 0 <= k < i && grid.has((#[trigger] cells@[k]).0) ==> any && min_x <= cells@[k].0.x
                    < max_x && min_y <= cells@[k].0.y < max_y,
                !any ==> forall|k: int| 0 <= k < i ==> !grid.has(#[trigger] cells@[k].0),
                any ==> exists|k: int| 0 <= k < i && grid.has(#[trigger] cells@[k].0),
            decreases cells@.len() - i,
        {
            let (p, c) = cells[i];
            proof {
                assert(0 <= p.x <= self.spec_text().len());
            }
            if grid.contains(p) {
                grid.set(p, c);
                if !any || p.x < min_x {
                    min_x = p.x;
                }
                if !any || p.y < min_y {
                    min_y = p.y;
                }
                if !any || p.x + 1 > max_x {
                    max_x = p.x + 1;
                }
                if !any || p.y + 1 > max_y {
                    max_y = p.y + 1;
                }
                any = true;
            }
            i = i + 1;
        }
        if any {
            Range::new(min_x, min_y, max_x, max_y)
        } else {
            Range::new(0, 0, 0, 0)
        }
    }
}


/// The size of a text is within its length on both axes.
pub proof fn lemma_size_small(st: &StyledText)
    requires
        st.spec_text().len() < i32::MAX,
    ensures
        0 <= st.spec_size().x <= st.spec_text().len(),
        0 <= st.spec_size().y <= st.spec_text().len() + 1,
{
    lemma_render_bounds(st.spec_text(), st.spec_style(), st.spec_markups(), st.markup_on());
}


/// Wrapping never lengthens the text: the output, the pending word and a
/// due separator together hold no more characters than were read.
proof fn lemma_wrap_len(t: Seq<char>, on: bool, width: int)
    ensures
        ({
            let (s, word, _col, ws, _wlen, _p, _st) = wrap(t, on, width);
            s.len() + word.len() + (if ws { 1int } else { 0int }) <= t.len()
        }),
    decreases t.len(),
{
    if t.len() > 0 {
        lemma_wrap_len(t.drop_last(), on, width);
    }
}

/// Trimming never lengthens.
proof fn lemma_trim_len(s: Seq<char>)
    ensures
        trim_end_sn(s).len() <= s.len(),
    decreases s.len(),
{
    if s.len() > 0 && (s.last() == ' ' || s.last() == '\n') {
        lemma_trim_len(s.drop_last());
    }
}

/// A wrapped text is no longer than the text.
pub proof fn lemma_wrapped_len(t: Seq<char>, on: bool, width: int)
    ensures
        wrapped(t, on, width).len() <= t.len(),
{
    lemma_wrap_len(t, on, width);
    let (s, word, col, ws, wlen, _p, _st) = wrap(t, on, width);
    let f = if wlen > 0 { flush_word(s, word, ws, wlen, col, width) } else { s };
    lemma_trim_len(f);
}

/// Each line of a text is no longer than the text, and neither is it
/// without its carriage returns.
pub proof fn lemma_line_len(t: Seq<char>, i: int)
    requires
        0 <= i < split_lines(t).len(),
    ensures
        split_lines(t)[i].len() <= t.len(),
        strip_cr(split_lines(t)[i]).len() <= t.len(),
    decreases t.len(),
{
    lemma_strip_cr_len(split_lines(t)[i]);
    if t.len() > 0 {
        let prev = split_lines(t.drop_last());
        crate::rl::vault::lemma_split_nonempty(t.drop_last());
        if t.last() == '\n' {
            if i < prev.len() {
                lemma_line_len(t.drop_last(), i);
            }
        } else {
            lemma_line_len(t.drop_last(), i);
        }
    }
}

/// Removing carriage returns does not lengthen a text.
pub proof fn lemma_strip_cr_len(t: Seq<char>)
    ensures
        strip_cr(t).len() <= t.len(),
    decreases t.len(),
{
    if t.len() > 0 {
        lemma_strip_cr_len(t.drop_last());
    }
}

/// Splitting with markups gives no more lines than characters plus one.
proof fn lemma_lines_scan_len(t: Seq<char>)
    ensures
        lines_scan(t).3.len() <= t.len(),
    decreases t.len(),
{
    if t.len() > 0 {
        lemma_lines_scan_len(t.drop_last());
    }
}

/// A text has no more lines than characters plus one, with or without
/// markups.
pub proof fn lemma_lines_count(t: Seq<char>)
    ensures
        split_lines(t).len() <= t.len() + 1,
        markup_lines(t).len() <= t.len() + 1,
    decreases t.len(),
{
    lemma_lines_scan_len(t);
    if t.len() > 0 {
        lemma_lines_count(t.drop_last());
        crate::rl::vault::lemma_split_nonempty(t.drop_last());
    }
}


/// The wrapping state after reading `u`, starting from the state `w`.
spec fn wrap_from(w: WrapState, u: Seq<char>, on: bool, width: int) -> WrapState
    decreases u.len(),
{
    if u.len() == 0 {
        w
    } else {
        wrap_step(wrap_from(w, u.drop_last(), on, width), u.last(), on, width)
    }
}

/// `k` spaces.
pub open spec fn spaces(k: nat) -> Seq<char> {
    Seq::new(k, |_i: int| ' ')
}

/// Wrapping `t` then `u` is wrapping `u` from the state that `t` leaves.
proof fn lemma_wrap_split(t: Seq<char>, u: Seq<char>, on: bool, width: int)
    ensures
        wrap(t + u, on, width) == wrap_from(wrap(t, on, width), u, on, width),
    decreases u.len(),
{
    if u.len() == 0 {
        assert(t + u =~= t);
    } else {
        assert((t + u).drop_last() =~= t + u.drop_last());
        assert((t + u).last() == u.last());
        lemma_wrap_split(t, u.drop_last(), on, width);
    }
}

/// At the start of a line, spaces go straight to the output.
proof fn lemma_wrap_spaces(base: Seq<char>, pm: bool, k: nat, on: bool, width: int)
    requires
        on ==> !pm,
    ensures
        wrap_from((base, Seq::empty(), 0, false, 0, pm, true), spaces(k), on, width)
            == (base + spaces(k), Seq::<char>::empty(), k as int, false, 0int, pm, true),
    decreases k,
{
    if k > 0 {
        assert(spaces(k).drop_last() =~= spaces((k - 1) as nat));
        lemma_wrap_spaces(base, pm, (k - 1) as nat, on, width);
        assert(base + spaces((k - 1) as nat).push(' ') =~= base + spaces(k));
    } else {
        assert(base + spaces(0) =~= base);
    }
}

/// What wrapping keeps once `c` has been read after `base`: either the
/// output already starts with `base` and `c`, or `c` heads the pending word
/// that will follow `base` with no separator.
spec fn keeps_head(w: WrapState, base: Seq<char>, c: char) -> bool {
    let (s, word, _col, ws, wlen, _p, st) = w;
    ||| base.push(c).is_prefix_of(s)
    ||| (s == base && word.len() > 0 && word[0] == c && wlen > 0 && !ws && !st)
}

/// A step of wrapping only appends to the output.
proof fn lemma_step_extends(w: WrapState, ch: char, on: bool, width: int)
    ensures
        w.0.is_prefix_of(wrap_step(w, ch, on, width).0),
{
    let (s, word, col, ws, wlen, procm, st) = w;
    let s2 = wrap_step(w, ch, on, width).0;
    if wlen > 0 {
        let f = flush_word(s, word, ws, wlen, col, width);
        assert(s.is_prefix_of(f)) by {
            if ws {
                assert(f.subrange(0, s.len() as int) =~= s);
            } else {
                assert(f.subrange(0, s.len() as int) =~= s);
            }
        }
        assert(s.is_prefix_of(f.push('\n'))) by {
            assert(f.push('\n').subrange(0, s.len() as int) =~= s);
        }
    }
    assert(s.is_prefix_of(s.push(ch))) by {
        assert(s.push(ch).subrange(0, s.len() as int) =~= s);
    }
    assert(s.is_prefix_of(s.push(' '))) by {
        assert(s.push(' ').subrange(0, s.len() as int) =~= s);
    }
    assert(s.is_prefix_of(s.push('\n'))) by {
        assert(s.push('\n').subrange(0, s.len() as int) =~= s);
    }
    assert(s.is_prefix_of(s)) by {
        assert(s.subrange(0, s.len() as int) =~= s);
    }
}

/// Prefixes chain.
proof fn lemma_prefix_trans(a: Seq<char>, b: Seq<char>, c: Seq<char>)
    requires
        a.is_prefix_of(b),
        b.is_prefix_of(c),
    ensures
        a.is_prefix_of(c),
{
    assert(c.subrange(0, a.len() as int) =~= b.subrange(0, a.len() as int));
}

/// Wrapping keeps what `keeps_head` says, whatever is read.
proof fn lemma_keeps_head(w: WrapState, u: Seq<char>, base: Seq<char>, c: char, on: bool, width: int)
    requires
        keeps_head(w, base, c),
    ensures
        keeps_head(wrap_from(w, u, on, width), base, c),
    decreases u.len(),
{
    if u.len() > 0 {
        lemma_keeps_head(w, u.drop_last(), base, c, on, width);
        let v = wrap_from(w, u.drop_last(), on, width);
        let ch = u.last();
        let (s, word, col, ws, wlen, procm, st) = v;
        lemma_step_extends(v, ch, on, width);
        if base.push(c).is_prefix_of(s) {
            lemma_prefix_trans(base.push(c), s, wrap_step(v, ch, on, width).0);
        } else {
            let f = flush_word(s, word, ws, wlen, col, width);
            assert(f =~= s + word);
            assert(base.push(c).is_prefix_of(f)) by {
                assert(f.subrange(0, base.len() + 1int) =~= base.push(c));
            }
            assert(base.push(c).is_prefix_of(f.push('\n'))) by {
                assert(f.push('\n').subrange(0, base.len() + 1int) =~= base.push(c));
            }
        }
    }
}

/// Trimming spaces and newlines at the end keeps a prefix that ends in
/// another character.
proof fn lemma_trim_keeps_prefix(p: Seq<char>, x: Seq<char>)
    requires
        p.len() > 0,
        p.last() != ' ',
        p.last() != '\n',
        p.is_prefix_of(x),
    ensures
        p.is_prefix_of(trim_end_sn(x)),
    decreases x.len(),
{
    if x.len() > 0 && (x.last() == ' ' || x.last() == '\n') {
        assert(x.len() > p.len()) by {
            if x.len() == p.len() {
                assert(x.last() == x.subrange(0, p.len() as int)[p.len() - 1]);
            }
        }
        assert(x.drop_last().subrange(0, p.len() as int) =~= x.subrange(0, p.len() as int));
        lemma_trim_keeps_prefix(p, x.drop_last());
    }
}

/// From the start of a line, `k` spaces and a character `c` that is no
/// space, newline or carriage return come out as they are, whatever
/// follows.
proof fn lemma_line_head(base: Seq<char>, pm: bool, k: nat, c: char, rest: Seq<char>, on: bool, width: int)
    requires
        c != ' ',
        c != '\n',
        c != '\r',
        on ==> !pm,
    ensures
        ({
            let (s, word, col, ws, wlen, _p, _st) = wrap_from(
                (base, Seq::empty(), 0, false, 0, pm, true), spaces(k).push(c) + rest, on, width);
            (base + spaces(k)).push(c).is_prefix_of(
                trim_end_sn(if wlen > 0 { flush_word(s, word, ws, wlen, col, width) } else { s }))
        }),
{
    let w0: WrapState = (base, Seq::empty(), 0, false, 0, pm, true);
    let u = spaces(k).push(c) + rest;
    let head = spaces(k).push(c);
    let b2 = base + spaces(k);
    lemma_wrap_split(Seq::empty(), u, on, width);
    // split the reading of `u` into its head and the rest
    assert(wrap_from(w0, u, on, width) == wrap_from(wrap_from(w0, head, on, width), rest, on, width)) by {
        lemma_wrap_from_split(w0, head, rest, on, width);
    }
    lemma_wrap_spaces(base, pm, k, on, width);
    assert(head.drop_last() =~= spaces(k));
    let w1 = wrap_from(w0, spaces(k), on, width);
    let w2 = wrap_step(w1, c, on, width);
    assert(wrap_from(w0, head, on, width) == w2);
    assert(keeps_head(w2, b2, c)) by {
        assert(b2.push(c).is_prefix_of(b2.push(c))) by {
            assert(b2.push(c).subrange(0, b2.len() + 1int) =~= b2.push(c));
        }
        assert(seq![c][0] == c);
        assert(Seq::<char>::empty().push(c) =~= seq![c]);
    }
    lemma_keeps_head(w2, rest, b2, c, on, width);
    let (s, word, col, ws, wlen, _p, _st) = wrap_from(w2, rest, on, width);
    let f = if wlen > 0 { flush_word(s, word, ws, wlen, col, width) } else { s };
    if b2.push(c).is_prefix_of(s) {
        if wlen > 0 {
            lemma_step_flush_extends(s, word, ws, wlen, col, width);
            lemma_prefix_trans(b2.push(c), s, f);
        }
    } else {
        assert(f =~= s + word);
        assert(f.subrange(0, b2.len() + 1int) =~= b2.push(c));
    }
    lemma_trim_keeps_prefix(b2.push(c), f);
}

/// Flushing a word only appends.
proof fn lemma_step_flush_extends(s: Seq<char>, word: Seq<char>, ws: bool, wlen: int, col: int, width: int)
    ensures
        s.is_prefix_of(flush_word(s, word, ws, wlen, col, width)),
{
    assert(flush_word(s, word, ws, wlen, col, width).subrange(0, s.len() as int) =~= s);
}

/// Reading `t` then `u` from a state is reading `u` from the state that
/// `t` leaves.
proof fn lemma_wrap_from_split(w: WrapState, t: Seq<char>, u: Seq<char>, on: bool, width: int)
    ensures
        wrap_from(w, t + u, on, width) == wrap_from(wrap_from(w, t, on, width), u, on, width),
    decreases u.len(),
{
    if u.len() == 0 {
        assert(t + u =~= t);
    } else {
        assert((t + u).drop_last() =~= t + u.drop_last());
        assert((t + u).last() == u.last());
        lemma_wrap_from_split(w, t, u.drop_last(), on, width);
    }
}

/// Formatting keeps the leading spaces of the first line: a text that
/// starts with `k` spaces and then a character that is no space, newline
/// or carriage return wraps, at any width, to a text that starts with the
/// same spaces and that character.
pub proof fn lemma_wrapped_keeps_leading_spaces(k: nat, c: char, rest: Seq<char>, on: bool, width: int)
    requires
        c != ' ',
        c != '\n',
        c != '\r',
    ensures
        spaces(k).push(c).is_prefix_of(wrapped(spaces(k).push(c) + rest, on, width)),
{
    let t = spaces(k).push(c) + rest;
    lemma_wrap_split(Seq::empty(), t, on, width);
    assert(Seq::<char>::empty() + t =~= t);
    lemma_line_head(Seq::empty(), false, k, c, rest, on, width);
    assert(Seq::<char>::empty() + spaces(k) =~= spaces(k));
}

/// Formatting keeps the leading spaces of every later line: where the text
/// has a newline, `k` spaces and a character that is no space, newline or
/// carriage return, the wrapped text has that newline followed by the same
/// spaces and that character.
pub proof fn lemma_wrapped_keeps_line_indent(a: Seq<char>, k: nat, c: char, rest: Seq<char>, on: bool, width: int)
    requires
        c != ' ',
        c != '\n',
        c != '\r',
    ensures
        ({
            let out = wrapped(a.push('\n') + spaces(k).push(c) + rest, on, width);
            exists|i: int|
                0 <= i && i + k + 2 <= out.len()
                    && #[trigger] out.subrange(i, i + k + 2) == seq!['\n'] + spaces(k).push(c)
        }),
{
    let u = spaces(k).push(c) + rest;
    let t = a.push('\n') + u;
    assert(a.push('\n') + spaces(k).push(c) + rest =~= t);
    lemma_wrap_split(a.push('\n'), u, on, width);
    assert(a.push('\n').drop_last() =~= a);
    let (s0, word0, col0, ws0, wlen0, procm0, st0) = wrap(a, on, width);
    let w1 = wrap(a.push('\n'), on, width);
    let s2 = if wlen0 > 0 { flush_word(s0, word0, ws0, wlen0, col0, width) } else { s0 };
    let base = s2.push('\n');
    assert(a.push('\n').last() == '\n');
    assert(w1 == wrap_step(wrap(a, on, width), '\n', on, width));
    let pm = w1.5;
    assert(on ==> !pm);
    assert(w1 == (base, Seq::<char>::empty(), 0int, false, 0int, pm, true));
    lemma_line_head(base, pm, k, c, rest, on, width);
    let out = wrapped(t, on, width);
    let p = (base + spaces(k)).push(c);
    let i = s2.len() as int;
    assert(out.subrange(i, i + k + 2) =~= p.subrange(i, i + k + 2));
    assert(p.subrange(i, i + k + 2) =~= seq!['\n'] + spaces(k).push(c));
}


/// The position just after the last space among the first `k` characters
/// of `t`, or 0 when there is none.
spec fn word_start(t: Seq<char>, k: int) -> int
    decreases k,
{
    if k <= 0 {
        0
    } else if t[k - 1] == ' ' {
        k
    } else {
        word_start(t, k - 1)
    }
}

/// Whether `t` is words of plain characters, none of them a newline, a
/// carriage return or (with markup on) `@`, separated by single spaces,
/// with no space at either end.
pub open spec fn plain_words(t: Seq<char>, on: bool) -> bool {
    &&& t.len() > 0 ==> t[0] != ' ' && t.last() != ' '
    &&& forall|i: int| 0 <= i < t.len() ==> #[trigger] t[i] != '\n' && t[i] != '\r' && !(on && t[i] == '@')
    &&& forall|i: int| 0 <= i < t.len() - 1 && #[trigger] t[i] == ' ' ==> t[i + 1] != ' '
}

/// Where a word starts: after a space, and no space after it.
proof fn lemma_word_start(t: Seq<char>, k: int)
    requires
        0 <= k <= t.len(),
    ensures
        0 <= word_start(t, k) <= k,
        word_start(t, k) > 0 ==> t[word_start(t, k) - 1] == ' ',
        forall|i: int| word_start(t, k) <= i < k ==> #[trigger] t[i] != ' ',
    decreases k,
{
    if k > 0 {
        lemma_word_start(t, k - 1);
    }
}

/// The wrapping state after the first `k` characters of plain words, at a
/// width that fits them all: everything up to the last space is out as it
/// came, and the word after it is pending.
proof fn lemma_wrap_plain(t: Seq<char>, on: bool, width: int, k: int)
    requires
        plain_words(t, on),
        width >= t.len(),
        0 <= k <= t.len(),
    ensures
        ({
            let j = word_start(t, k);
            if k == 0 {
                wrap(t.take(k), on, width) == (Seq::<char>::empty(), Seq::<char>::empty(), 0int, false, 0int, false, true)
            } else if t[k - 1] == ' ' {
                wrap(t.take(k), on, width) == (t.take(k - 1), Seq::<char>::empty(), k - 1, true, 0int, false, false)
            } else {
                wrap(t.take(k), on, width) == (
                    if j == 0 { Seq::<char>::empty() } else { t.take(j - 1) },
                    t.subrange(j, k),
                    if j == 0 { 0int } else { j - 1 },
                    j > 0,
                    k - j,
                    false,
                    false,
                )
            }
        }),
    decreases k,
{
    if k > 0 {
        lemma_wrap_plain(t, on, width, k - 1);
        lemma_word_start(t, k);
        lemma_word_start(t, k - 1);
        assert(t.take(k).drop_last() =~= t.take(k - 1));
        assert(t.take(k).last() == t[k - 1]);
        let c = t[k - 1];
        assert(c != '\n' && c != '\r' && !(on && c == '@'));
        let j = word_start(t, k);
        if c == ' ' {
            assert(k >= 2) by {
                if k == 1 {
                    assert(t[0] != ' ');
                }
            }
            assert(t[k - 2] != ' ');
            let j1 = word_start(t, k - 1);
            if j1 == 0 {
                assert(Seq::<char>::empty() + t.subrange(0, k - 1) =~= t.take(k - 1));
            } else {
                assert(t[j1 - 1] == ' ');
                assert(t.take(j1 - 1).push(' ') + t.subrange(j1, k - 1) =~= t.take(k - 1));
            }
        } else {
            if k >= 2 && t[k - 2] == ' ' {
                assert(j == k - 1);
                assert(Seq::<char>::empty().push(c) =~= t.subrange(k - 1, k));
            } else if k >= 2 {
                assert(j == word_start(t, k - 1));
                assert(t.subrange(j, k - 1).push(c) =~= t.subrange(j, k));
            } else {
                assert(j == 0);
                assert(Seq::<char>::empty().push(c) =~= t.subrange(0, 1));
            }
        }
    }
}

/// Wrapping plain words separated by single spaces, at a width that fits
/// them all, gives them back unchanged.
pub proof fn lemma_wrapped_plain_words(t: Seq<char>, on: bool, width: int)
    requires
        plain_words(t, on),
        width >= t.len(),
    ensures
        wrapped(t, on, width) == t,
{
    let n = t.len() as int;
    lemma_wrap_plain(t, on, width, n);
    assert(t.take(n) =~= t);
    if n > 0 {
        lemma_word_start(t, n);
        let j = word_start(t, n);
        assert(t.last() == t[n - 1]);
        if j == 0 {
            assert(Seq::<char>::empty() + t.subrange(0, n) =~= t);
        } else {
            assert(t[j - 1] == ' ');
            assert(t.take(j - 1).push(' ') + t.subrange(j, n) =~= t);
        }
    }
}
} // verus!
