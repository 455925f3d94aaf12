//! Prefabricated room or level sections built from text.
//!
//! A [`Vault`] parses an ASCII art string into a grid overlay that can be
//! drawn, reflected and rotated.
use vstd::prelude::*;

use crate::geom::{Point, Range, pt, rg, min_int, max_int};
use crate::grid::{slice_bounds, slice_fits};
use crate::rl::grid::{Cell, Grid};
use crate::util::{chars_of, string_of, string_push};

verus! {

/// Whether `c` is whitespace in the sense of Unicode's `White_Space`
/// property, as `char::is_whitespace` decides: the 25 code points U+0009
/// to U+000D, U+0020, U+0085, U+00A0, U+1680, U+2000 to U+200A, U+2028,
/// U+2029, U+202F, U+205F and U+3000.
pub open spec fn is_ws(c: char) -> bool {
    let v = c as u32;
    ||| 0x09 <= v <= 0x0D
    ||| v == 0x20
    ||| v == 0x85
    ||| v == 0xA0
    ||| v == 0x1680
    ||| 0x2000 <= v <= 0x200A
    ||| v == 0x2028
    ||| v == 0x2029
    ||| v == 0x202F
    ||| v == 0x205F
    ||| v == 0x3000
}

/// `char::is_whitespace`.
#[verifier::external_body]
pub(crate) fn char_is_whitespace(c: char) -> (b: bool)
    ensures
        b == is_ws(c),
{
    c.is_whitespace()
}

/// The index of the first non-whitespace character of `t` at or after
/// `i`, or the length if there is none.
pub open spec fn first_non_ws(t: Seq<char>, i: int) -> int
    decreases t.len() - i,
{
    if i >= t.len() || i < 0 {
        t.len() as int
    } else if !is_ws(t[i]) {
        i
    } else {
        first_non_ws(t, i + 1)
    }
}

/// One past the index of the last non-whitespace character of `t` before
/// `j`, but no less than `lo`.
pub open spec fn end_non_ws(t: Seq<char>, lo: int, j: int) -> int
    decreases j - lo,
{
    if j <= lo || j > t.len() {
        lo
    } else if !is_ws(t[j - 1]) {
        j
    } else {
        end_non_ws(t, lo, j - 1)
    }
}

/// `t` without its leading and trailing whitespace.
pub open spec fn trim_seq(t: Seq<char>) -> Seq<char> {
    let a = first_non_ws(t, 0);
    t.subrange(a, end_non_ws(t, a, t.len() as int))
}

/// The state of the vault parser after some characters: the position
/// reached and the width of reference, or the error met.
#[derive(Clone, Copy, Debug, PartialEq, Eq, Structural)]
pub enum ScanState {
    Going { x: i32, y: i32, w: i32 },
    BadSize,
    BadRune { ch: char, x: i32, y: i32 },
}

/// One step of the parser: a newline closes a line, whose width becomes
/// the reference width when it is the first line and must equal it
/// otherwise; any other character must be permitted (when `runes` is not
/// empty) and advances the column.
pub open spec fn scan_step(st: ScanState, ch: char, runes: Seq<char>) -> ScanState {
    match st {
        ScanState::Going { x, y, w } => {
            if ch == '\n' {
                if w < 0 {
                    ScanState::Going { x: 0, y: (y + 1) as i32, w: x }
                } else if x != w {
                    ScanState::BadSize
                } else {
                    ScanState::Going { x: 0, y: (y + 1) as i32, w }
                }
            } else if runes.len() > 0 && !runes.contains(ch) {
                ScanState::BadRune { ch, x, y }
            } else {
                ScanState::Going { x: (x + 1) as i32, y, w }
            }
        },
        _ => st,
    }
}

/// The parser's state after all of `t`.
pub open spec fn scan(t: Seq<char>, runes: Seq<char>) -> ScanState
    decreases t.len(),
{
    if t.len() == 0 {
        ScanState::Going { x: 0, y: 0, w: -1i32 }
    } else {
        scan_step(scan(t.drop_last(), runes), t.last(), runes)
    }
}

/// The end of parsing: the last line is checked like the others, and the
/// line count is the number of newlines plus one unless the text is empty.
/// A successful outcome holds the size: the last line's width and the line
/// count.
pub open spec fn scan_finish(st: ScanState) -> ScanState {
    match st {
        ScanState::Going { x, y, w } => {
            if w >= 0 && x != w {
                ScanState::BadSize
            } else {
                ScanState::Going { x, y: if x > 0 || y > 0 { (y + 1) as i32 } else { y }, w: x }
            }
        },
        _ => st,
    }
}

/// The outcome of parsing `s` with permitted characters `runes`.
pub open spec fn parse_outcome(s: Seq<char>, runes: Seq<char>) -> ScanState {
    scan_finish(scan(trim_seq(s), runes))
}

/// The lines of `t`, split at each newline.
pub open spec fn split_lines(t: Seq<char>) -> Seq<Seq<char>>
    decreases t.len(),
{
    if t.len() == 0 {
        seq![Seq::empty()]
    } else {
        let prev = split_lines(t.drop_last());
        if t.last() == '\n' {
            prev.push(Seq::empty())
        } else {
            prev.update(prev.len() - 1, prev.last().push(t.last()))
        }
    }
}

/// The text up to its last newline, each of its lines reversed.
pub open spec fn reflected_done(t: Seq<char>) -> Seq<char>
    decreases t.len(),
{
    if t.len() == 0 {
        Seq::empty()
    } else if t.last() == '\n' {
        reflected_done(t.drop_last()) + split_lines(t.drop_last()).last().reverse() + seq!['\n']
    } else {
        reflected_done(t.drop_last())
    }
}

/// The text with each of its lines reversed.
pub open spec fn reflected(t: Seq<char>) -> Seq<char> {
    reflected_done(t) + split_lines(t).last().reverse()
}

/// Lines joined with newlines between them.
pub open spec fn join_lines(l: Seq<Seq<char>>) -> Seq<char>
    decreases l.len(),
{
    if l.len() == 0 {
        Seq::empty()
    } else if l.len() == 1 {
        l[0]
    } else {
        join_lines(l.drop_last()) + seq!['\n'] + l.last()
    }
}

/// The rows of a `w` by `h` text turned a quarter counter-clockwise: row
/// `x` holds column `w - 1 - x` of the lines, top to bottom.
pub open spec fn rotated_rows(l: Seq<Seq<char>>, w: int, h: int) -> Seq<Seq<char>> {
    Seq::new(w as nat, |x: int| Seq::new(h as nat, |y: int| l[y][w - 1 - x]))
}

/// Whether a quarter turn of a text of the given size reads only
/// characters that exist: there are at least `h` lines, each of at least
/// `w` characters.
pub open spec fn turnable(t: Seq<char>, size: Point) -> bool {
    &&& size.x >= 0
    &&& size.y >= 0
    &&& split_lines(t).len() >= size.y
    &&& forall|y: int| 0 <= y < size.y ==> #[trigger] split_lines(t)[y].len() >= size.x
}

/// The first non-blank index from `i` lies between `i` and the end.
proof fn lemma_first_non_ws_bounds(t: Seq<char>, i: int)
    requires
        0 <= i,
    ensures
        0 <= first_non_ws(t, i) <= t.len(),
        i <= t.len() ==> i <= first_non_ws(t, i),
    decreases t.len() - i,
{
    if i < t.len() && is_ws(t[i]) {
        lemma_first_non_ws_bounds(t, i + 1);
    }
}

/// The end of the non-blank part lies between `lo` and `j`.
proof fn lemma_end_non_ws_bounds(t: Seq<char>, lo: int, j: int)
    requires
        0 <= lo <= j <= t.len(),
    ensures
        lo <= end_non_ws(t, lo, j) <= j,
    decreases j - lo,
{
    if j > lo && is_ws(t[j - 1]) {
        lemma_end_non_ws_bounds(t, lo, j - 1);
    }
}

/// Splitting a text that starts with `c`: a newline opens the text with an
/// empty line, another character starts the first line.
pub proof fn lemma_split_prepend(c: char, u: Seq<char>)
    ensures
        split_lines(seq![c] + u) == if c == '\n' {
            seq![Seq::<char>::empty()] + split_lines(u)
        } else {
            split_lines(u).update(0, seq![c] + split_lines(u)[0])
        },
        split_lines(u).len() >= 1,
    decreases u.len(),
{
    let t = seq![c] + u;
    if u.len() == 0 {
        assert(t.drop_last() =~= Seq::<char>::empty());
        assert(u =~= Seq::<char>::empty());
        assert(split_lines(Seq::<char>::empty()) == seq![Seq::<char>::empty()]);
        assert(split_lines(u) == seq![Seq::<char>::empty()]);
        assert(split_lines(t.drop_last()) == seq![Seq::<char>::empty()]);
        assert(t.last() == c);
        if c == '\n' {
            assert(split_lines(t) =~= seq![Seq::<char>::empty()] + split_lines(u));
        } else {
            assert(split_lines(t) =~= split_lines(u).update(0, seq![c] + split_lines(u)[0]));
        }
    } else {
        let u2 = u.drop_last();
        lemma_split_prepend(c, u2);
        assert(t.drop_last() =~= seq![c] + u2);
        assert(t.last() == u.last());
        let pu = split_lines(u2);
        if c == '\n' {
            if u.last() == '\n' {
                assert(split_lines(t) =~= seq![Seq::<char>::empty()] + split_lines(u));
            } else {
                assert(split_lines(t) =~= seq![Seq::<char>::empty()] + split_lines(u));
            }
        } else {
            if u.last() == '\n' {
                assert(split_lines(t) =~= split_lines(u).update(0, seq![c] + split_lines(u)[0]));
            } else {
                if pu.len() == 1 {
                    assert(split_lines(t) =~= split_lines(u).update(0, seq![c] + split_lines(u)[0]));
                } else {
                    assert(split_lines(t) =~= split_lines(u).update(0, seq![c] + split_lines(u)[0]));
                }
            }
        }
    }
}

/// The lines of a text that the parser went through without error: one
/// more than the newlines seen, the last as wide as the column reached,
/// and the others all as wide as the reference width.
pub proof fn lemma_scan_lines(t: Seq<char>, runes: Seq<char>)
    requires
        scan(t, runes) is Going,
        t.len() < i32::MAX,
    ensures
        scan(t, runes)->Going_x <= t.len(),
        scan(t, runes)->Going_y <= t.len(),
        ({
            let st = scan(t, runes);
            let lines = split_lines(t);
            &&& lines.len() == st->Going_y + 1
            &&& lines.last().len() == st->Going_x
            &&& st->Going_x >= 0
            &&& st->Going_y >= 0
            &&& (st->Going_y >= 1 ==> st->Going_w >= 0)
            &&& forall|i: int| 0 <= i < st->Going_y ==> #[trigger] lines[i].len() == st->Going_w
        }),
    decreases t.len(),
{
    if t.len() > 0 {
        let prev = scan(t.drop_last(), runes);
        assert(prev is Going) by {
            if !(prev is Going) {
                assert(scan_step(prev, t.last(), runes) == prev);
            }
        }
        lemma_scan_lines(t.drop_last(), runes);
        let pl = split_lines(t.drop_last());
        let lines = split_lines(t);
        if t.last() == '\n' {
            assert(lines == pl.push(Seq::empty()));
            assert forall|i: int| 0 <= i < scan(t, runes)->Going_y implies #[trigger] lines[i].len() == scan(t, runes)->Going_w by {
                if i < prev->Going_y {
                    assert(lines[i] == pl[i]);
                } else {
                    assert(lines[i] == pl.last());
                }
            }
        } else {
            assert(lines == pl.update(pl.len() - 1, pl.last().push(t.last())));
            assert forall|i: int| 0 <= i < scan(t, runes)->Going_y implies #[trigger] lines[i].len() == scan(t, runes)->Going_w by {
                assert(lines[i] == pl[i]);
            }
        }
    }
}

/// A vault that parses can be turned a quarter: its text holds as many
/// lines as its height, each at least as wide as its width.
pub proof fn lemma_parsed_turnable(s: Seq<char>, runes: Seq<char>)
    requires
        parse_outcome(s, runes) is Going,
        s.len() < i32::MAX,
    ensures
        turnable(trim_seq(s), pt(parse_outcome(s, runes)->Going_x as int, parse_outcome(s, runes)->Going_y as int)),
{
    let t = trim_seq(s);
    lemma_first_non_ws_bounds(s, 0);
    lemma_end_non_ws_bounds(s, first_non_ws(s, 0), s.len() as int);
    let st = scan(t, runes);
    assert(st is Going) by {
        if !(st is Going) {
            assert(scan_finish(st) == st);
        }
    }
    lemma_scan_lines(t, runes);
    let lines = split_lines(t);
    let fin = parse_outcome(s, runes);
    assert forall|y: int| 0 <= y < fin->Going_y implies #[trigger] lines[y].len() >= fin->Going_x by {
        if y < st->Going_y {
            assert(lines[y].len() == st->Going_w);
        } else {
            assert(lines[y] == lines.last());
        }
    }
}

/// The lines of a reversed text are its lines in reverse order, each
/// reversed.
pub proof fn lemma_split_reverse(t: Seq<char>)
    ensures
        split_lines(t.reverse()) =~= split_lines(t).reverse().map_values(|l: Seq<char>| l.reverse()),
    decreases t.len(),
{
    let f = |l: Seq<char>| l.reverse();
    if t.len() == 0 {
        assert(t.reverse() =~= Seq::<char>::empty());
        assert(split_lines(Seq::<char>::empty()) == seq![Seq::<char>::empty()]);
        assert(split_lines(t) == seq![Seq::<char>::empty()]);
        assert(Seq::<char>::empty().reverse() =~= Seq::<char>::empty());
    } else {
        let c = t[0];
        let u = t.drop_first();
        assert(t =~= seq![c] + u);
        lemma_split_reverse(u);
        lemma_split_prepend(c, u);
        let tr = t.reverse();
        assert(tr.drop_last() =~= u.reverse());
        assert(tr.last() == c);
        let su = split_lines(u);
        let sur = split_lines(u.reverse());
        assert(sur =~= su.reverse().map_values(f));
        if c == '\n' {
            let st = seq![Seq::<char>::empty()] + su;
            assert(split_lines(t) == st);
            assert(split_lines(tr) == sur.push(Seq::empty()));
            assert(st.reverse().map_values(f) =~= sur.push(Seq::empty())) by {
                assert forall|i: int| 0 <= i < st.len() implies #[trigger] st.reverse().map_values(f)[i]
                    == sur.push(Seq::empty())[i] by {
                    if i < su.len() {
                        assert(st.reverse()[i] == su.reverse()[i]);
                    } else {
                        assert(st.reverse()[i] == Seq::<char>::empty());
                        assert(Seq::<char>::empty().reverse() =~= Seq::<char>::empty());
                    }
                }
            }
        } else {
            let st = su.update(0, seq![c] + su[0]);
            assert(split_lines(t) == st);
            assert(split_lines(tr) == sur.update(sur.len() - 1, sur.last().push(c)));
            assert(st.reverse().map_values(f) =~= sur.update(sur.len() - 1, sur.last().push(c))) by {
                assert forall|i: int| 0 <= i < st.len() implies #[trigger] st.reverse().map_values(f)[i]
                    == sur.update(sur.len() - 1, sur.last().push(c))[i] by {
                    if i < su.len() - 1 {
                        assert(st.reverse()[i] == su.reverse()[i]);
                    } else {
                        assert(st.reverse()[i] == seq![c] + su[0]);
                        assert(sur.last() == su[0].reverse());
                        assert((seq![c] + su[0]).reverse() =~= su[0].reverse().push(c));
                    }
                }
            }
        }
    }
}

/// A vault that parses can also be turned three quarters: its reversed
/// text holds as many lines as its height, each at least as wide as its
/// width.
pub proof fn lemma_parsed_turnable_reversed(s: Seq<char>, runes: Seq<char>)
    requires
        parse_outcome(s, runes) is Going,
        s.len() < i32::MAX,
    ensures
        turnable(trim_seq(s).reverse(), pt(parse_outcome(s, runes)->Going_x as int, parse_outcome(s, runes)->Going_y as int)),
{
    let t = trim_seq(s);
    lemma_first_non_ws_bounds(s, 0);
    lemma_end_non_ws_bounds(s, first_non_ws(s, 0), s.len() as int);
    let st = scan(t, runes);
    assert(st is Going) by {
        if !(st is Going) {
            assert(scan_finish(st) == st);
        }
    }
    lemma_scan_lines(t, runes);
    lemma_split_reverse(t);
    let lines = split_lines(t);
    let rl = split_lines(t.reverse());
    let fin = parse_outcome(s, runes);
    let n = lines.len();
    assert forall|i: int| 0 <= i < n implies #[trigger] lines[i].len() == fin->Going_x || fin->Going_y == 0 by {
        if i < st->Going_y {
            assert(lines[i].len() == st->Going_w);
        } else {
            assert(lines[i] == lines.last());
        }
    }
    assert forall|y: int| 0 <= y < fin->Going_y implies #[trigger] rl[y].len() >= fin->Going_x by {
        assert(rl[y] == lines[n - 1 - y].reverse());
        assert(lines[n - 1 - y].len() == fin->Going_x);
    }
}

/// The range from the origin to `size`, as `Range::new` makes it.
pub open spec fn extent(size: Point) -> Range {
    rg(min_int(0, size.x as int), min_int(0, size.y as int), max_int(0, size.x as int), max_int(0, size.y as int))
}

/// Errors that can occur when parsing a vault.
#[derive(Debug, Clone)]
pub enum VaultError {
    /// Lines have inconsistent widths.
    InconsistentSize(String),
    /// A character not in the allowed set was found.
    InvalidRune { ch: char, pos: Point, content: String },
}

/// A prefabricated room or level section built from text: each character
/// maps to a position; lines are separated by newlines.
#[derive(Debug, Clone)]
pub struct Vault {
    pub content: String,
    pub runes: String,
    pub size: Point,
}

/// Whether `c` occurs in `v`.
fn contains_char(v: &Vec<char>, c: char) -> (b: bool)
    ensures
        b == v@.contains(c),
{
    let mut i: usize = 0;
    while i < v.len()
        invariant
            i <= v.len(),
            forall|k: int| 0 <= k < i ==> v@[k] != c,
        decreases v.len() - i,
    {
        if v[i] == c {
            assert(v@[i as int] == c);
            return true;
        }
        i = i + 1;
    }
    false
}

/// `t` without its leading and trailing whitespace.
pub(crate) fn trim_chars(t: &Vec<char>) -> (r: Vec<char>)
    ensures
        r@ == trim_seq(t@),
        r@.len() <= t@.len(),
{
    let n: usize = t.len();
    let ghost a0 = first_non_ws(t@, 0);
    let mut a: usize = 0;
    while a < n
        invariant
            a <= n,
            n == t@.len(),
            first_non_ws(t@, 0) == first_non_ws(t@, a as int),
        ensures
            a <= n,
            first_non_ws(t@, 0) == first_non_ws(t@, a as int),
            a == n || !is_ws(t@[a as int]),
        decreases n - a,
    {
        if !char_is_whitespace(t[a]) {
            break;
        }
        a = a + 1;
    }
    assert(a == a0);
    let mut b: usize = n;
    while b > a
        invariant
            a <= b <= n,
            n == t@.len(),
            end_non_ws(t@, a as int, n as int) == end_non_ws(t@, a as int, b as int),
        ensures
            a <= b <= n,
            end_non_ws(t@, a as int, n as int) == end_non_ws(t@, a as int, b as int),
            b == a || !is_ws(t@[b - 1]),
        decreases b - a,
    {
        if !char_is_whitespace(t[b - 1]) {
            break;
        }
        b = b - 1;
    }
    assert(end_non_ws(t@, a as int, b as int) == b);
    let mut r: Vec<char> = Vec::new();
    let mut i: usize = a;
    while i < b
        invariant
            a <= i <= b <= n,
            n == t@.len(),
            r@ == t@.subrange(a as int, i as int),
        decreases b - i,
    {
        r.push(t[i]);
        i = i + 1;
    }
    r
}


/// Scanning one more character extends the scan of the prefix.
proof fn lemma_scan_prefix(t: Seq<char>, runes: Seq<char>, k: int)
    requires
        0 <= k < t.len(),
    ensures
        scan(t.subrange(0, k + 1), runes) == scan_step(scan(t.subrange(0, k), runes), t[k], runes),
{
    assert(t.subrange(0, k + 1).drop_last() =~= t.subrange(0, k));
}

/// Splitting one more character extends the split of the prefix.
proof fn lemma_split_prefix(t: Seq<char>, k: int)
    requires
        0 <= k < t.len(),
    ensures
        t.subrange(0, k + 1).drop_last() == t.subrange(0, k),
        t.subrange(0, k + 1).last() == t[k],
{
    assert(t.subrange(0, k + 1).drop_last() =~= t.subrange(0, k));
}

/// Splitting one more character extends the split of the prefix, as the
/// line scanners of other modules need.
pub proof fn lemma_split_prefix_pub(t: Seq<char>, k: int)
    requires
        0 <= k < t.len(),
    ensures
        t.subrange(0, k + 1).drop_last() == t.subrange(0, k),
        split_lines(t.subrange(0, k + 1)) == (if t[k] == '\n' {
            split_lines(t.subrange(0, k)).push(Seq::empty())
        } else {
            split_lines(t.subrange(0, k)).update(
                split_lines(t.subrange(0, k)).len() - 1,
                split_lines(t.subrange(0, k)).last().push(t[k]),
            )
        }),
        split_lines(t.subrange(0, k + 1)).last() == (if t[k] == '\n' { Seq::empty() } else {
            split_lines(t.subrange(0, k)).last().push(t[k])
        }),
{
    assert(t.subrange(0, k + 1).drop_last() =~= t.subrange(0, k));
    lemma_split_nonempty(t.subrange(0, k));
}

/// A split has at least one line.
pub proof fn lemma_split_nonempty(t: Seq<char>)
    ensures
        split_lines(t).len() >= 1,
    decreases t.len(),
{
    if t.len() > 0 {
        lemma_split_nonempty(t.drop_last());
    }
}

/// Each line reversed.
pub open spec fn rev_lines(ls: Seq<Seq<char>>) -> Seq<Seq<char>> {
    ls.map_values(|l: Seq<char>| l.reverse())
}

/// What the lines before the last contribute to their join: each, then a
/// newline.
pub open spec fn join_head(ls: Seq<Seq<char>>) -> Seq<char> {
    if ls.len() <= 1 { Seq::empty() } else { join_lines(ls.drop_last()) + seq!['\n'] }
}

/// A join ends with the last line.
proof fn lemma_join_last(ls: Seq<Seq<char>>)
    requires
        ls.len() >= 1,
    ensures
        join_lines(ls) == join_head(ls) + ls.last(),
{
    if ls.len() == 1 {
        assert(join_head(ls) + ls.last() =~= ls[0]);
    }
}

/// The reflected part before the last newline is the join of the
/// reversed lines before the last one.
proof fn lemma_reflected_done(t: Seq<char>)
    ensures
        reflected_done(t) == join_head(rev_lines(split_lines(t))),
    decreases t.len(),
{
    lemma_split_nonempty(t);
    if t.len() > 0 {
        let t0 = t.drop_last();
        lemma_reflected_done(t0);
        lemma_split_nonempty(t0);
        let ls0 = split_lines(t0);
        let ls = split_lines(t);
        if t.last() == '\n' {
            assert(rev_lines(ls).drop_last() =~= rev_lines(ls0));
            lemma_join_last(rev_lines(ls0));
            assert(rev_lines(ls0).last() == ls0.last().reverse());
        } else {
            assert(rev_lines(ls).drop_last() =~= rev_lines(ls0).drop_last());
        }
    }
}

/// Reflecting joins the reversed lines.
proof fn lemma_reflected_join(t: Seq<char>)
    ensures
        reflected(t) == join_lines(rev_lines(split_lines(t))),
{
    lemma_split_nonempty(t);
    lemma_reflected_done(t);
    lemma_join_last(rev_lines(split_lines(t)));
}

/// No line of a split holds a newline.
proof fn lemma_split_no_newline(t: Seq<char>)
    ensures
        forall|i: int| 0 <= i < split_lines(t).len() ==> !(#[trigger] split_lines(t)[i]).contains('\n'),
    decreases t.len(),
{
    lemma_split_nonempty(t);
    if t.len() > 0 {
        lemma_split_no_newline(t.drop_last());
        lemma_split_nonempty(t.drop_last());
        let ls0 = split_lines(t.drop_last());
        if t.last() != '\n' {
            assert forall|i: int| 0 <= i < split_lines(t).len() implies !(#[trigger] split_lines(t)[i]).contains('\n') by {
                if i == ls0.len() - 1 {
                    let l = ls0.last().push(t.last());
                    if l.contains('\n') {
                        let j = choose|j: int| 0 <= j < l.len() && l[j] == '\n';
                        if j < ls0.last().len() {
                            assert(ls0.last()[j] == '\n');
                            assert(ls0.last().contains('\n'));
                        }
                    }
                }
            }
        } else {
            assert forall|i: int| 0 <= i < split_lines(t).len() implies !(#[trigger] split_lines(t)[i]).contains('\n') by {
                if i == ls0.len() {
                    assert(split_lines(t)[i] =~= Seq::<char>::empty());
                }
            }
        }
    }
}

/// Appending characters without a newline extends the last line.
proof fn lemma_split_append(s: Seq<char>, x: Seq<char>)
    requires
        !x.contains('\n'),
    ensures
        split_lines(s + x) == split_lines(s).update(split_lines(s).len() - 1, split_lines(s).last() + x),
    decreases x.len(),
{
    lemma_split_nonempty(s);
    if x.len() == 0 {
        assert(s + x =~= s);
        assert(split_lines(s).last() + x =~= split_lines(s).last());
        assert(split_lines(s).update(split_lines(s).len() - 1, split_lines(s).last()) =~= split_lines(s));
    } else {
        let x0 = x.drop_last();
        assert(!x0.contains('\n')) by {
            if x0.contains('\n') {
                let j = choose|j: int| 0 <= j < x0.len() && x0[j] == '\n';
                assert(x[j] == '\n');
            }
        }
        lemma_split_append(s, x0);
        assert((s + x).drop_last() =~= s + x0);
        assert(x.last() != '\n') by {
            assert(x[x.len() - 1] == x.last());
        }
        lemma_split_nonempty(s + x0);
        assert((s + x).last() == x.last());
        let prev = split_lines(s + x0);
        assert(prev.last() == split_lines(s).last() + x0);
        assert((split_lines(s).last() + x0).push(x.last()) =~= split_lines(s).last() + x);
        assert(split_lines(s + x) == prev.update(prev.len() - 1, prev.last().push(x.last())));
        assert(split_lines(s + x) =~= split_lines(s).update(split_lines(s).len() - 1, split_lines(s).last() + x));
    }
}

/// Splitting a join of lines without newlines gives the lines back.
proof fn lemma_split_join(ls: Seq<Seq<char>>)
    requires
        ls.len() >= 1,
        forall|i: int| 0 <= i < ls.len() ==> !(#[trigger] ls[i]).contains('\n'),
    ensures
        split_lines(join_lines(ls)) == ls,
    decreases ls.len(),
{
    if ls.len() == 1 {
        lemma_split_append(Seq::empty(), ls[0]);
        assert(Seq::<char>::empty() + ls[0] =~= ls[0]);
        assert(split_lines(Seq::<char>::empty()) =~= seq![Seq::<char>::empty()]);
        assert(seq![Seq::<char>::empty()].update(0, Seq::<char>::empty() + ls[0]) =~= ls);
    } else {
        let l0 = ls.drop_last();
        lemma_split_join(l0);
        let a = join_lines(l0) + seq!['\n'];
        assert(a.drop_last() =~= join_lines(l0));
        assert(split_lines(a) == ls.drop_last().push(Seq::<char>::empty()));
        lemma_split_append(a, ls.last());
        assert(Seq::<char>::empty() + ls.last() =~= ls.last());
        assert(split_lines(a + ls.last()) =~= ls);
    }
}

/// Joining the lines of a split gives the text back.
proof fn lemma_join_split(t: Seq<char>)
    ensures
        join_lines(split_lines(t)) == t,
    decreases t.len(),
{
    lemma_split_nonempty(t);
    if t.len() == 0 {
        assert(join_lines(split_lines(t)) =~= t);
    } else {
        let t0 = t.drop_last();
        lemma_join_split(t0);
        lemma_split_nonempty(t0);
        let ls0 = split_lines(t0);
        lemma_join_last(ls0);
        if t.last() == '\n' {
            assert(split_lines(t).drop_last() =~= ls0);
            assert(join_lines(split_lines(t)) =~= t);
        } else {
            let ls = split_lines(t);
            lemma_join_last(ls);
            assert(ls.drop_last() =~= ls0.drop_last());
            assert(join_head(ls) == join_head(ls0));
            assert(ls.last() == ls0.last().push(t.last()));
            assert(t =~= t0.push(t.last()));
            assert(join_lines(ls) =~= t);
        }
    }
}

/// Reflecting a text twice gives it back.
pub proof fn lemma_reflect_twice(t: Seq<char>)
    ensures
        reflected(reflected(t)) == t,
{
    let ls = split_lines(t);
    lemma_split_nonempty(t);
    lemma_split_no_newline(t);
    lemma_reflected_join(t);
    let rl = rev_lines(ls);
    assert forall|i: int| 0 <= i < rl.len() implies !(#[trigger] rl[i]).contains('\n') by {
        if rl[i].contains('\n') {
            let j = choose|j: int| 0 <= j < rl[i].len() && rl[i][j] == '\n';
            assert(ls[i][ls[i].len() - 1 - j] == '\n');
            assert(ls[i].contains('\n'));
        }
    }
    lemma_split_join(rl);
    lemma_reflected_join(reflected(t));
    assert(rev_lines(rl) =~= ls) by {
        assert forall|i: int| 0 <= i < ls.len() implies rev_lines(rl)[i] == ls[i] by {
            assert(ls[i].reverse().reverse() =~= ls[i]);
        }
    }
    lemma_join_split(t);
}

impl Vault {
    /// A vault of no content, no runes and size zero.
    fn empty() -> (v: Vault)
        ensures
            v.content@ == Seq::<char>::empty(),
            v.runes@ == Seq::<char>::empty(),
            v.size == pt(0, 0),
    {
        Vault { content: String::new(), runes: String::new(), size: Point::new(0, 0) }
    }

    /// Create a new vault by parsing the given string, with every
    /// character permitted (see [`parse`](Self::parse)).
    pub fn new(s: &str) -> (r: Result<Vault, VaultError>)
        requires
            s@.len() < i32::MAX,
        ensures
            match parse_outcome(s@, Seq::empty()) {
                ScanState::Going { x, y, w } => r matches Ok(v) && v.content@ == trim_seq(s@)
                    && v.size == pt(x as int, y as int) && v.runes@ == Seq::<char>::empty(),
                ScanState::BadSize => r matches Err(VaultError::InconsistentSize(c)) && c@ == trim_seq(s@),
                ScanState::BadRune { ch, x, y } => r matches Err(VaultError::InvalidRune { ch: c, pos, content })
                    && c == ch && pos == pt(x as int, y as int) && content@ == trim_seq(s@),
            },
    {
        let mut v = Vault::empty();
        match v.parse(s) {
            Ok(()) => Ok(v),
            Err(e) => Err(e),
        }
    }

    /// The vault's textual content.
    pub fn content(&self) -> (s: &str)
        ensures
            s@ == self.content@,
    {
        self.content.as_str()
    }

    /// The (width, height) size of the vault in cells.
    pub fn size(&self) -> (p: Point)
        ensures
            p == self.size,
    {
        self.size
    }

    /// Set the permitted characters. If non-empty, [`parse`](Self::parse)
    /// rejects any character not in this string; empty means any character
    /// is allowed.
    pub fn set_runes(&mut self, s: &str)
        ensures
            final(self).runes@ == s@,
            final(self).content@ == old(self).content@,
            final(self).size == old(self).size,
    {
        self.runes = s.to_owned();
    }

    /// The currently permitted characters.
    pub fn runes(&self) -> (s: &str)
        ensures
            s@ == self.runes@,
    {
        self.runes.as_str()
    }

    /// Parse (or re-parse) the vault content.
    ///
    /// Leading and trailing whitespace is trimmed from the whole string but
    /// not from individual lines. Every line must have the width of the
    /// first one, and a character missing from
    /// [`runes`](Self::runes) when it is set; the first error met, left to
    /// right, is reported. On success the content is the trimmed text and
    /// the size is the width of the last line by the number of lines. On
    /// error the vault is unchanged.
    pub fn parse(&mut self, s: &str) -> (r: Result<(), VaultError>)
        requires
            s@.len() < i32::MAX,
        ensures
            final(self).runes@ == old(self).runes@,
            match parse_outcome(s@, old(self).runes@) {
                ScanState::Going { x, y, w } => r is Ok && final(self).content@ == trim_seq(s@)
                    && final(self).size == pt(x as int, y as int),
                ScanState::BadSize => r matches Err(VaultError::InconsistentSize(c)) && c@ == trim_seq(s@)
                    && final(self).content@ == old(self).content@ && final(self).size == old(self).size,
                ScanState::BadRune { ch, x, y } => r matches Err(VaultError::InvalidRune { ch: c, pos, content })
                    && c == ch && pos == pt(x as int, y as int) && content@ == trim_seq(s@)
                    && final(self).content@ == old(self).content@ && final(self).size == old(self).size,
            },
    {
        let raw = chars_of(s);
        let t = trim_chars(&raw);
        let runes = chars_of(self.runes.as_str());
        let ghost rs = runes@;
        let n: usize = t.len();
        let mut x: i32 = 0;
        let mut y: i32 = 0;
        let mut w: i32 = -1;
        let mut k: usize = 0;
        proof {
            assert(t@.subrange(0, 0) =~= Seq::<char>::empty());
        }
        while k < n
            invariant
                n == t@.len(),
                n < i32::MAX,
                t@ == trim_seq(s@),
                rs == runes@,
                rs == self.runes@,
                k <= n,
                0 <= x <= k,
                0 <= y <= k,
                -1 <= w <= k,
                scan(t@.subrange(0, k as int), rs) == (ScanState::Going { x, y, w }),
            decreases n - k,
        {
            let ch = t[k];
            proof {
                lemma_scan_prefix(t@, rs, k as int);
            }
            if ch == '\n' {
                if w < 0 {
                    w = x;
                } else if x != w {
                    proof {
                        lemma_scan_rest_bad(t@, rs, (k + 1) as int);
                    }
                    return Err(VaultError::InconsistentSize(string_of(&t)));
                }
                x = 0;
                y = y + 1;
            } else {
                if runes.len() > 0 && !contains_char(&runes, ch) {
                    proof {
                        lemma_scan_rest_bad(t@, rs, (k + 1) as int);
                    }
                    return Err(VaultError::InvalidRune { ch, pos: Point::new(x, y), content: string_of(&t) });
                }
                x = x + 1;
            }
            k = k + 1;
        }
        proof {
            assert(t@.subrange(0, n as int) =~= t@);
        }
        if w >= 0 && x != w {
            return Err(VaultError::InconsistentSize(string_of(&t)));
        }
        if x > 0 || y > 0 {
            y = y + 1;
        }
        self.content = string_of(&t);
        self.size = Point::new(x, y);
        Ok(())
    }
}

/// Once the parser has met an error, the rest of the text leaves it there.
proof fn lemma_scan_rest_bad(t: Seq<char>, runes: Seq<char>, k: int)
    requires
        0 <= k <= t.len(),
        !(scan(t.subrange(0, k), runes) is Going),
    ensures
        scan(t, runes) == scan(t.subrange(0, k), runes),
    decreases t.len() - k,
{
    if k < t.len() {
        lemma_scan_prefix(t, runes, k);
        lemma_scan_rest_bad(t, runes, k + 1);
    } else {
        assert(t.subrange(0, k) =~= t);
    }
}


/// The last line after one more character.
proof fn lemma_split_step(p: Seq<char>, c: char)
    ensures
        p.push(c).drop_last() == p,
        c == '\n' ==> split_lines(p.push(c)) == split_lines(p).push(Seq::empty()),
        c != '\n' ==> split_lines(p.push(c)) == split_lines(p).update(
            split_lines(p).len() - 1,
            split_lines(p).last().push(c),
        ),
        split_lines(p.push(c)).last() == (if c == '\n' { Seq::empty() } else { split_lines(p).last().push(c) }),
        split_lines(p.push(c)).len() == split_lines(p).len() + (if c == '\n' { 1int } else { 0int }),
        c == '\n' ==> reflected_done(p.push(c)) == reflected_done(p) + split_lines(p).last().reverse() + seq!['\n'],
        c != '\n' ==> reflected_done(p.push(c)) == reflected_done(p),
{
    assert(p.push(c).drop_last() =~= p);
    lemma_split_nonempty(p);
}

impl Vault {
    /// Call `f` on every position of the content and its character, row by
    /// row.
    pub fn iter<F: FnMut(Point, char)>(&self, f: F)
        requires
            self.content@.len() < i32::MAX,
            forall|s: F, p: Point, c: char| #[trigger] s.requires((p, c)),
    {
        let mut f = f;
        let t = chars_of(self.content.as_str());
        let mut x: i32 = 0;
        let mut y: i32 = 0;
        let mut k: usize = 0;
        while k < t.len()
            invariant
                t@.len() < i32::MAX,
                k <= t@.len(),
                0 <= x <= k,
                0 <= y <= k,
                forall|s: F, p: Point, c: char| #[trigger] s.requires((p, c)),
            decreases t@.len() - k,
        {
            let ch = t[k];
            if ch == '\n' {
                x = 0;
                y = y + 1;
            } else {
                f(Point::new(x, y), ch);
                x = x + 1;
            }
            k = k + 1;
        }
    }

    /// Draw the vault into a grid, mapping each character to a cell with
    /// `f`, at its position relative to the grid's origin. Returns the
    /// sub-grid covering the vault's extent.
    pub fn draw<F: Fn(char) -> Cell>(&self, grid: &Grid, f: F) -> (g: Grid)
        requires
            self.content@.len() < i32::MAX,
            grid@.min.x + self.content@.len() <= i32::MAX,
            grid@.min.y + self.content@.len() <= i32::MAX,
            slice_fits(grid@, extent(self.size)),
            forall|c: char| f.requires((c,)),
        ensures
            g@ == slice_bounds(grid@, extent(self.size)),
    {
        let b = grid.bounds();
        let t = chars_of(self.content.as_str());
        let mut x: i32 = 0;
        let mut y: i32 = 0;
        let mut k: usize = 0;
        while k < t.len()
            invariant
                t@.len() == self.content@.len(),
                t@.len() < i32::MAX,
                b == grid@,
                b.min.x >= 0,
                b.min.y >= 0,
                grid@.min.x + t@.len() <= i32::MAX,
                grid@.min.y + t@.len() <= i32::MAX,
                k <= t@.len(),
                0 <= x <= k,
                0 <= y <= k,
                forall|c: char| f.requires((c,)),
            decreases t@.len() - k,
        {
            let ch = t[k];
            if ch == '\n' {
                x = 0;
                y = y + 1;
            } else {
                let c = f(ch);
                grid.set(Point::new(x, y), c);
                x = x + 1;
            }
            k = k + 1;
        }
        grid.slice(Range::new(0, 0, self.size.x, self.size.y))
    }

    /// Reflect the content horizontally: each line is reversed.
    pub fn reflect(&mut self)
        ensures
            final(self).content@ == reflected(old(self).content@),
            final(self).size == old(self).size,
            final(self).runes@ == old(self).runes@,
    {
        let t = chars_of(self.content.as_str());
        let mut result: Vec<char> = Vec::new();
        let mut line: Vec<char> = Vec::new();
        let mut k: usize = 0;
        proof {
            assert(t@.subrange(0, 0) =~= Seq::<char>::empty());
        }
        while k < t.len()
            invariant
                k <= t@.len(),
                result@ == reflected_done(t@.subrange(0, k as int)),
                line@ == split_lines(t@.subrange(0, k as int)).last(),
            decreases t@.len() - k,
        {
            let ch = t[k];
            proof {
                lemma_split_prefix(t@, k as int);
                lemma_split_step(t@.subrange(0, k as int), ch);
                assert(t@.subrange(0, k as int).push(ch) =~= t@.subrange(0, k + 1));
            }
            if ch == '\n' {
                let ghost r0 = result@;
                let mut j: usize = line.len();
                while j > 0
                    invariant
                        j <= line@.len(),
                        result@ == r0 + line@.reverse().subrange(0, line@.len() - j),
                    decreases j,
                {
                    j = j - 1;
                    result.push(line[j]);
                    proof {
                        assert(result@ =~= r0 + line@.reverse().subrange(0, line@.len() - j));
                    }
                }
                proof {
                    assert(line@.reverse().subrange(0, line@.len() as int) =~= line@.reverse());
                }
                result.push('\n');
                line = Vec::new();
            } else {
                line.push(ch);
            }
            k = k + 1;
        }
        let ghost r1 = result@;
        let mut j: usize = line.len();
        while j > 0
            invariant
                j <= line@.len(),
                result@ == r1 + line@.reverse().subrange(0, line@.len() - j),
            decreases j,
        {
            j = j - 1;
            result.push(line[j]);
            proof {
                assert(result@ =~= r1 + line@.reverse().subrange(0, line@.len() - j));
            }
        }
        proof {
            assert(line@.reverse().subrange(0, line@.len() as int) =~= line@.reverse());
            assert(t@.subrange(0, t@.len() as int) =~= t@);
        }
        self.content = string_of(&result);
    }

    /// Turn the content half a turn: the characters in reverse order.
    fn rotate180(&mut self)
        ensures
            final(self).content@ == old(self).content@.reverse(),
            final(self).size == old(self).size,
            final(self).runes@ == old(self).runes@,
    {
        let t = chars_of(self.content.as_str());
        let mut r: Vec<char> = Vec::new();
        let mut j: usize = t.len();
        while j > 0
            invariant
                j <= t@.len(),
                r@ == t@.reverse().subrange(0, t@.len() - j),
            decreases j,
        {
            j = j - 1;
            r.push(t[j]);
            proof {
                assert(r@ =~= t@.reverse().subrange(0, t@.len() - j));
            }
        }
        proof {
            assert(t@.reverse().subrange(0, t@.len() as int) =~= t@.reverse());
        }
        self.content = string_of(&r);
    }
}


/// Joining one more line extends the join of the previous ones.
proof fn lemma_join_step(l: Seq<Seq<char>>, x: int)
    requires
        0 <= x < l.len(),
    ensures
        x == 0 ==> join_lines(l.subrange(0, 1)) == l[0],
        x > 0 ==> join_lines(l.subrange(0, x + 1)) == join_lines(l.subrange(0, x)) + seq!['\n'] + l[x],
{
    assert(l.subrange(0, x + 1).drop_last() =~= l.subrange(0, x));
}

/// The lines of a text, each as a vector of characters.
pub(crate) fn lines_of(t: &Vec<char>) -> (lines: Vec<Vec<char>>)
    ensures
        lines@.len() == split_lines(t@).len(),
        forall|i: int| 0 <= i < lines@.len() ==> #[trigger] lines@[i]@ == split_lines(t@)[i],
{
    let mut lines: Vec<Vec<char>> = Vec::new();
    let mut cur: Vec<char> = Vec::new();
    let mut k: usize = 0;
    proof {
        assert(t@.subrange(0, 0) =~= Seq::<char>::empty());
    }
    while k < t.len()
        invariant
            k <= t@.len(),
            lines@.len() + 1 == split_lines(t@.subrange(0, k as int)).len(),
            forall|i: int| 0 <= i < lines@.len() ==> #[trigger] lines@[i]@ == split_lines(t@.subrange(0, k as int))[i],
            cur@ == split_lines(t@.subrange(0, k as int)).last(),
        decreases t@.len() - k,
    {
        let ch = t[k];
        proof {
            lemma_split_prefix(t@, k as int);
            lemma_split_step(t@.subrange(0, k as int), ch);
            assert(t@.subrange(0, k as int).push(ch) =~= t@.subrange(0, k + 1));
        }
        if ch == '\n' {
            let mut done: Vec<char> = Vec::new();
            std::mem::swap(&mut done, &mut cur);
            lines.push(done);
        } else {
            cur.push(ch);
        }
        k = k + 1;
    }
    lines.push(cur);
    proof {
        assert(t@.subrange(0, t@.len() as int) =~= t@);
    }
    lines
}

impl Vault {
    /// Turn the content a quarter counter-clockwise: row `x` of the result
    /// is column `width - 1 - x` of the lines, top to bottom; the size's
    /// width and height swap.
    fn rotate90(&mut self)
        requires
            turnable(old(self).content@, old(self).size),
        ensures
            final(self).content@ == join_lines(
                rotated_rows(split_lines(old(self).content@), old(self).size.x as int, old(self).size.y as int),
            ),
            final(self).size == pt(old(self).size.y as int, old(self).size.x as int),
            final(self).runes@ == old(self).runes@,
    {
        let t = chars_of(self.content.as_str());
        let lines = lines_of(&t);
        let max = self.size;
        let ghost rows = rotated_rows(split_lines(t@), max.x as int, max.y as int);
        let mut result: Vec<char> = Vec::new();
        let mut x: i32 = 0;
        proof {
            assert(rows.subrange(0, 0) =~= Seq::<Seq<char>>::empty());
        }
        while x < max.x
            invariant
                turnable(t@, max),
                lines@.len() == split_lines(t@).len(),
                forall|i: int| 0 <= i < lines@.len() ==> #[trigger] lines@[i]@ == split_lines(t@)[i],
                rows == rotated_rows(split_lines(t@), max.x as int, max.y as int),
                0 <= x <= max.x,
                result@ == join_lines(rows.subrange(0, x as int)) + (if 0 < x < max.x { seq!['\n'] } else { Seq::empty() }),
            decreases max.x - x,
        {
            let ghost base = result@;
            let mut y: i32 = 0;
            while y < max.y
                invariant
                    turnable(t@, max),
                    lines@.len() == split_lines(t@).len(),
                    forall|i: int| 0 <= i < lines@.len() ==> #[trigger] lines@[i]@ == split_lines(t@)[i],
                    rows == rotated_rows(split_lines(t@), max.x as int, max.y as int),
                    0 <= x < max.x,
                    0 <= y <= max.y,
                    result@ == base + rows[x as int].subrange(0, y as int),
                decreases max.y - y,
            {
                let line = &lines[y as usize];
                proof {
                    assert(split_lines(t@)[y as int].len() >= max.x);
                }
                let c = line[(max.x - x - 1) as usize];
                result.push(c);
                proof {
                    assert(result@ =~= base + rows[x as int].subrange(0, y + 1));
                }
                y = y + 1;
            }
            proof {
                assert(rows[x as int].subrange(0, max.y as int) =~= rows[x as int]);
                lemma_join_step(rows, x as int);
            }
            if x < max.x - 1 {
                result.push('\n');
            }
            proof {
                if x == 0 {
                    assert(result@ =~= join_lines(rows.subrange(0, x + 1)) + (if 0 < x + 1 < max.x { seq!['\n'] } else { Seq::empty() }));
                } else {
                    assert(result@ =~= join_lines(rows.subrange(0, x + 1)) + (if 0 < x + 1 < max.x { seq!['\n'] } else { Seq::empty() }));
                }
            }
            x = x + 1;
        }
        proof {
            assert(rows.subrange(0, max.x as int) =~= rows);
            if max.x == 0 {
                assert(rows =~= Seq::<Seq<char>>::empty());
            }
        }
        self.content = string_of(&result);
        self.size = Point::new(max.y, max.x);
    }

    /// Rotate the content `n` quarter turns counter-clockwise; a negative
    /// `n` turns clockwise. A quarter turn reads every line up to the
    /// vault's width, so the lines it reads must be that long, as they are
    /// in every vault that parsing made (see [`lemma_parsed_turnable`] and
    /// [`lemma_parsed_turnable_reversed`]).
    pub fn rotate(&mut self, n: i32)
        requires
            n % 4 == 1 ==> turnable(old(self).content@, old(self).size),
            n % 4 == 3 ==> turnable(old(self).content@.reverse(), old(self).size),
        ensures
            final(self).runes@ == old(self).runes@,
            n % 4 == 0 ==> final(self).content@ == old(self).content@ && final(self).size == old(self).size,
            n % 4 == 1 ==> final(self).content@ == join_lines(
                rotated_rows(split_lines(old(self).content@), old(self).size.x as int, old(self).size.y as int),
            ) && final(self).size == pt(old(self).size.y as int, old(self).size.x as int),
            n % 4 == 2 ==> final(self).content@ == old(self).content@.reverse() && final(self).size == old(self).size,
            n % 4 == 3 ==> final(self).content@ == join_lines(
                rotated_rows(
                    split_lines(old(self).content@.reverse()),
                    old(self).size.x as int,
                    old(self).size.y as int,
                ),
            ) && final(self).size == pt(old(self).size.y as int, old(self).size.x as int),
    {
        let m: u32 = quarter_turns(n);
        if m == 1 {
            self.rotate90();
        } else if m == 2 {
            self.rotate180();
        } else if m == 3 {
            self.rotate180();
            self.rotate90();
        }
    }
}

/// The number of counter-clockwise quarter turns `n` amounts to, in 0..4.
fn quarter_turns(n: i32) -> (m: u32)
    ensures
        m == n % 4,
        m < 4,
{
    if n >= 0 {
        (n as u32) % 4
    } else {
        let a: u32 = ((-(n as i64)) as u64 % 4) as u32;
        let m: u32 = (4 - a) % 4;
        proof {
            let q = (-(n as int)) / 4;
            assert(-(n as int) == 4 * q + a);
            assert(n as int == 4 * (-q - 1) + (4 - a));
            if a == 0 {
                assert(n as int == 4 * (-q));
            }
        }
        m
    }
}

/// Two half turns give the vault back: a half turn reverses the content and
/// keeps the size, and reversing twice restores the content.
pub proof fn lemma_two_half_turns(content: Seq<char>)
    ensures
        content.reverse().reverse() == content,
{
    assert(content.reverse().reverse() =~= content);
}

} // verus!
