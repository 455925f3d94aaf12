//! The game's message log: styled entries, repeated messages counted, and
//! the most recent ones word-wrapped for display.
use vstd::prelude::*;

use crate::rl::vault::{is_ws, char_is_whitespace};
use crate::util::{chars_of, string_of, push_decimal, decimal};

verus! {

/// Style of a log entry, mapped to a display colour.
#[derive(Debug, Clone, Copy, PartialEq, Eq, Structural)]
pub enum LogStyle {
    Normal,
    Confirm,
    Error,
    HurtMonster,
    HurtPlayer,
    Notable,
    Special,
    StatusEnd,
}

/// A single log entry.
#[derive(Debug)]
pub struct LogEntry {
    pub text: String,
    pub style: LogStyle,
    /// Whether the entry opened a turn.
    pub tick: bool,
    /// How many times the message was repeated after the first.
    pub dups: i32,
}

/// The most entries a log keeps before dropping its oldest.
pub open spec fn log_cap() -> int {
    10000
}

/// How many of the oldest entries are dropped when the log is over its cap.
pub open spec fn log_trim() -> int {
    1000
}

/// The uppercase mapping of a character, as Unicode defines it and
/// `char::to_uppercase` gives it (one to three characters).
pub uninterp spec fn char_upper(c: char) -> Seq<char>;

/// `char::to_uppercase`, collected into a string.
#[verifier::external_body]
fn to_upper(c: char) -> (s: String)
    ensures
        s@ == char_upper(c),
{
    c.to_uppercase().collect()
}

/// The text with its first character in uppercase.
pub open spec fn upper_first(t: Seq<char>) -> Seq<char> {
    if t.len() == 0 {
        t
    } else {
        char_upper(t[0]) + t.drop_first()
    }
}

/// The text with its first character in uppercase.
fn uppercase_first(s: &str) -> (r: String)
    ensures
        r@ == upper_first(s@),
{
    let cs = chars_of(s);
    if cs.len() == 0 {
        return String::new();
    }
    let mut out = chars_of(to_upper(cs[0]).as_str());
    let mut i: usize = 1;
    while i < cs.len()
        invariant
            1 <= i <= cs@.len(),
            out@ == char_upper(cs@[0]) + cs@.subrange(1, i as int),
        decreases cs@.len() - i,
    {
        out.push(cs[i]);
        i = i + 1;
    }
    assert(cs@.subrange(1, cs@.len() as int) =~= cs@.drop_first());
    string_of(&out)
}

/// The game's message log.
pub struct GameLog {
    pub entries: Vec<LogEntry>,
    next_tick: bool,
}

impl GameLog {
    /// Whether the next entry opens a turn.
    pub closed spec fn spec_next_tick(&self) -> bool {
        self.next_tick
    }

    /// The entries, oldest first.
    pub closed spec fn spec_entries(&self) -> Seq<LogEntry> {
        self.entries@
    }

    /// An empty log.
    pub fn new() -> (g: GameLog)
        ensures
            g.spec_entries().len() == 0,
            !g.spec_next_tick(),
    {
        GameLog { entries: Vec::new(), next_tick: false }
    }

    /// Whether a message can be logged: the last entry's repetition count
    /// has room for one more.
    pub fn has_room(&self) -> (b: bool)
        ensures
            b == (self.spec_entries().len() > 0 ==> self.spec_entries().last().dups < i32::MAX),
    {
        let n = self.entries.len();
        n == 0 || self.entries[n - 1].dups < i32::MAX
    }

    /// Mark the start of a new turn: the next entry gets a tick marker.
    pub fn new_turn(&mut self)
        ensures
            final(self).spec_entries() == old(self).spec_entries(),
            final(self).spec_next_tick(),
    {
        self.next_tick = true;
    }

    /// Add a message with a given style, its first letter in uppercase. A
    /// message equal to the last one, in the same style and turn, only
    /// counts a repetition of it. Past the cap the oldest entries are
    /// dropped.
    pub fn log_styled(&mut self, text: &str, style: LogStyle)
        requires
            old(self).spec_entries().len() > 0 ==> old(self).spec_entries().last().dups < i32::MAX,
        ensures
            ({
                let t = upper_first(text@);
                let es = old(self).spec_entries();
                let fs = final(self).spec_entries();
                if es.len() > 0 && es.last().text@ == t && es.last().style == style && !old(self).spec_next_tick() {
                    &&& fs.len() == es.len()
                    &&& forall|i: int| 0 <= i < es.len() - 1 ==> fs[i] == es[i]
                    &&& fs.last().text == es.last().text
                    &&& fs.last().style == es.last().style
                    &&& fs.last().tick == es.last().tick
                    &&& fs.last().dups == es.last().dups + 1
                    &&& final(self).spec_next_tick() == old(self).spec_next_tick()
                } else {
                    let k = es.len() + 1;
                    let drop = if k > log_cap() { log_trim() } else { 0 };
                    &&& fs.len() == k - drop
                    &&& forall|i: int| 0 <= i < es.len() - drop ==> fs[i] == es[i + drop]
                    &&& fs.last().text@ == t
                    &&& fs.last().style == style
                    &&& fs.last().tick == old(self).spec_next_tick()
                    &&& fs.last().dups == 0
                    &&& !final(self).spec_next_tick()
                }
            }),
    {
        let text = uppercase_first(text);
        let n = self.entries.len();
        if n > 0 && self.entries[n - 1].text == text && self.entries[n - 1].style == style && !self.next_tick {
            let mut last = self.entries.pop().unwrap();
            last.dups = last.dups + 1;
            self.entries.push(last);
            return;
        }
        self.entries.push(LogEntry { text, style, tick: self.next_tick, dups: 0 });
        self.next_tick = false;
        if self.entries.len() > 10000 {
            let rest = self.entries.split_off(1000);
            self.entries = rest;
        }
    }

    /// Add a normal-style message.
    pub fn log(&mut self, text: &str)
        requires
            old(self).spec_entries().len() > 0 ==> old(self).spec_entries().last().dups < i32::MAX,
        ensures
            ({
                let t = upper_first(text@);
                let es = old(self).spec_entries();
                let fs = final(self).spec_entries();
                if es.len() > 0 && es.last().text@ == t && es.last().style == LogStyle::Normal
                    && !old(self).spec_next_tick() {
                    &&& fs.len() == es.len()
                    &&& fs.last().dups == es.last().dups + 1
                } else {
                    &&& fs.last().text@ == t
                    &&& fs.last().style == LogStyle::Normal
                    &&& fs.last().dups == 0
                }
            }),
    {
        self.log_styled(text, LogStyle::Normal);
    }
}

/// The number of bytes of a character in UTF-8.
pub open spec fn utf8_width(c: char) -> int {
    if (c as u32) < 0x80 {
        1
    } else if (c as u32) < 0x800 {
        2
    } else if (c as u32) < 0x10000 {
        3
    } else {
        4
    }
}

/// The number of bytes of a text in UTF-8 (what `str::len` counts).
pub open spec fn utf8_len(s: Seq<char>) -> int
    decreases s.len(),
{
    if s.len() == 0 {
        0
    } else {
        utf8_len(s.drop_last()) + utf8_width(s.last())
    }
}

/// The text shown for an entry: a bullet when it opened a turn, then the
/// message, then its number of occurrences when repeated.
pub open spec fn entry_part(e: LogEntry) -> Seq<char> {
    let head = if e.tick { seq!['\u{2022}', ' '] } else { Seq::<char>::empty() };
    let tail = if e.dups > 0 {
        seq![' ', '('] + decimal((e.dups + 1) as nat) + seq!['\u{00d7}', ')']
    } else {
        Seq::<char>::empty()
    };
    head + e.text@ + tail
}

/// How many of the newest entries are shown: entries are taken from the
/// newest, each costing its length plus one, until the cost passes
/// `budget` (the entry that passes it is taken) or none is left. `j`
/// entries costing `total` are taken so far.
pub open spec fn taken_from(es: Seq<LogEntry>, budget: int, j: int, total: int) -> int
    decreases es.len() - j,
{
    if j >= es.len() {
        es.len() as int
    } else {
        let t = total + utf8_len(entry_part(es[es.len() - 1 - j])) + 1;
        if t > budget { j + 1 } else { taken_from(es, budget, j + 1, t) }
    }
}

/// The parts of the entries joined with single spaces.
pub open spec fn join_parts(es: Seq<LogEntry>) -> Seq<char>
    decreases es.len(),
{
    if es.len() == 0 {
        Seq::empty()
    } else if es.len() == 1 {
        entry_part(es[0])
    } else {
        join_parts(es.drop_last()) + seq![' '] + entry_part(es.last())
    }
}

/// Splitting at whitespace: the words complete so far and the word under
/// way.
pub open spec fn words_scan(s: Seq<char>) -> (Seq<Seq<char>>, Seq<char>)
    decreases s.len(),
{
    if s.len() == 0 {
        (Seq::empty(), Seq::empty())
    } else {
        let (ws, cur) = words_scan(s.drop_last());
        let c = s.last();
        if is_ws(c) {
            if cur.len() > 0 { (ws.push(cur), Seq::empty()) } else { (ws, cur) }
        } else {
            (ws, cur.push(c))
        }
    }
}

/// The words of a text: its maximal runs of non-whitespace characters
/// (what `str::split_whitespace` yields).
pub open spec fn words(s: Seq<char>) -> Seq<Seq<char>> {
    let (ws, cur) = words_scan(s);
    if cur.len() > 0 { ws.push(cur) } else { ws }
}

/// Greedy filling of lines of `width` bytes with words: the lines
/// complete so far and the line under way. A word that does not fit
/// after the words of a line starts a new one.
pub open spec fn fill_scan(ws: Seq<Seq<char>>, width: int) -> (Seq<Seq<char>>, Seq<char>)
    decreases ws.len(),
{
    if ws.len() == 0 {
        (Seq::empty(), Seq::empty())
    } else {
        let (ls, cur) = fill_scan(ws.drop_last(), width);
        let w = ws.last();
        let (ls2, cur2) = if cur.len() > 0 && utf8_len(cur) + 1 + utf8_len(w) > width {
            (ls.push(cur), Seq::<char>::empty())
        } else {
            (ls, cur)
        };
        let cur3 = if cur2.len() > 0 { cur2.push(' ') } else { cur2 };
        (ls2, cur3 + w)
    }
}

/// The lines of words, filled greedily to `width` bytes.
pub open spec fn filled(ws: Seq<Seq<char>>, width: int) -> Seq<Seq<char>> {
    let (ls, cur) = fill_scan(ws, width);
    if cur.len() > 0 { ls.push(cur) } else { ls }
}

/// The lines shown for the log: the newest entries that fill about
/// `width * max_lines` bytes, oldest first, joined and word-wrapped to
/// `width` bytes, of which the last `max_lines`.
pub open spec fn recent(es: Seq<LogEntry>, width: int, max_lines: int) -> Seq<Seq<char>> {
    let k = taken_from(es, width * max_lines, 0, 0);
    let ls = filled(words(join_parts(es.subrange(es.len() - k, es.len() as int))), width);
    if ls.len() > max_lines { ls.subrange(ls.len() - max_lines, ls.len() as int) } else { ls }
}

/// The UTF-8 length of some characters.
fn utf8_len_of(s: &Vec<char>) -> (n: u128)
    ensures
        n == utf8_len(s@),
        n <= 4 * s@.len(),
        n <= 4 * (usize::MAX as int),
{
    let mut n: u128 = 0;
    let mut i: usize = 0;
    while i < s.len()
        invariant
            0 <= i <= s@.len(),
            n == utf8_len(s@.subrange(0, i as int)),
            n <= 4 * i,
        decreases s@.len() - i,
    {
        let c = s[i];
        let w: u128 = if (c as u32) < 0x80 {
            1
        } else if (c as u32) < 0x800 {
            2
        } else if (c as u32) < 0x10000 {
            3
        } else {
            4
        };
        assert(s@.subrange(0, i + 1).drop_last() =~= s@.subrange(0, i as int));
        n = n + w;
        i = i + 1;
    }
    assert(s@.subrange(0, s@.len() as int) =~= s@);
    n
}

/// Append the characters of `b` to `a`.
fn append(a: &mut Vec<char>, b: &Vec<char>)
    ensures
        final(a)@ == old(a)@ + b@,
{
    let mut i: usize = 0;
    while i < b.len()
        invariant
            0 <= i <= b@.len(),
            a@ == old(a)@ + b@.subrange(0, i as int),
        decreases b@.len() - i,
    {
        a.push(b[i]);
        i = i + 1;
    }
    assert(b@.subrange(0, b@.len() as int) =~= b@);
}

/// The text shown for an entry, as `entry_part` gives it.
fn part_of(e: &LogEntry) -> (v: Vec<char>)
    ensures
        v@ == entry_part(*e),
{
    let mut v: Vec<char> = Vec::new();
    if e.tick {
        v.push('\u{2022}');
        v.push(' ');
    }
    let t = chars_of(e.text.as_str());
    append(&mut v, &t);
    if e.dups > 0 {
        v.push(' ');
        v.push('(');
        push_decimal(&mut v, (e.dups as u32) + 1);
        v.push('\u{00d7}');
        v.push(')');
    }
    proof {
        let head = if e.tick { seq!['\u{2022}', ' '] } else { Seq::<char>::empty() };
        if e.dups > 0 {
            assert(v@ =~= head + e.text@ + (seq![' ', '('] + decimal((e.dups + 1) as nat) + seq!['\u{00d7}', ')']));
        } else {
            assert(v@ =~= head + e.text@ + Seq::<char>::empty());
        }
    }
    v
}

impl GameLog {
    /// The most recent entries for display, word-wrapped into lines of at
    /// most `width` bytes (a longer word stands on a line of its own): the
    /// last `max_lines` lines of the newest entries that fill about
    /// `width * max_lines` bytes.
    pub fn recent_lines(&self, width: usize, max_lines: usize) -> (v: Vec<String>)
        requires
            width * max_lines <= usize::MAX,
        ensures
            v@.len() == recent(self.spec_entries(), width as int, max_lines as int).len(),
            forall|i: int| 0 <= i < v@.len() ==> (#[trigger] v@[i])@ == recent(self.spec_entries(), width as int, max_lines as int)[i],
    {
        let es = &self.entries;
        let n = es.len();
        let budget: u128 = (width as u128) * (max_lines as u128);
        let ghost ges = es@;
        // Take the newest entries until their cost passes the budget.
        let mut parts: Vec<Vec<char>> = Vec::new();
        let mut total: u128 = 0;
        let mut j: usize = 0;
        let mut k: usize = n;
        while j < n
            invariant_except_break
                parts@.len() == j,
                forall|t: int| 0 <= t < j ==> (#[trigger] parts@[t])@ == entry_part(ges[n - 1 - t]),
                total <= budget,
                taken_from(ges, budget as int, 0, 0) == taken_from(ges, budget as int, j as int, total as int),
                k == n,
            invariant
                n == ges.len(),
                ges == es@,
                budget == width * max_lines,
                budget <= usize::MAX,
                0 <= j <= n,
            ensures
                k <= n,
                taken_from(ges, budget as int, 0, 0) == k,
                parts@.len() == k,
                forall|t: int| 0 <= t < k ==> (#[trigger] parts@[t])@ == entry_part(ges[n - 1 - t]),
            decreases n - j,
        {
            let p = part_of(&es[n - 1 - j]);
            let pl = utf8_len_of(&p);
            let t: u128 = total + pl + 1;
            parts.push(p);
            if t > budget {
                k = j + 1;
                break;
            }
            total = t;
            j = j + 1;
        }
        // Join them, oldest first.
        let ghost shown = ges.subrange(n - k, n as int);
        let mut joined: Vec<char> = Vec::new();
        let mut q: usize = 0;
        while q < k
            invariant
                k <= n,
                n == ges.len(),
                shown == ges.subrange(n - k, n as int),
                parts@.len() == k,
                forall|t: int| 0 <= t < k ==> (#[trigger] parts@[t])@ == entry_part(ges[n - 1 - t]),
                0 <= q <= k,
                joined@ == join_parts(shown.subrange(0, q as int)),
            decreases k - q,
        {
            if q > 0 {
                joined.push(' ');
            }
            let pq = &parts[k - 1 - q];
            append(&mut joined, pq);
            proof {
                assert(shown.subrange(0, q + 1).drop_last() =~= shown.subrange(0, q as int));
                assert(shown.subrange(0, q + 1).last() == ges[n - 1 - (k - 1 - q)]);
                if q == 0 {
                    assert(joined@ =~= entry_part(shown[0]));
                }
            }
            q = q + 1;
        }
        assert(shown.subrange(0, k as int) =~= shown);
        // Split at whitespace.
        let mut ws: Vec<Vec<char>> = Vec::new();
        let mut cur: Vec<char> = Vec::new();
        let mut i: usize = 0;
        while i < joined.len()
            invariant
                0 <= i <= joined@.len(),
                words_scan(joined@.subrange(0, i as int)).1 == cur@,
                words_scan(joined@.subrange(0, i as int)).0.len() == ws@.len(),
                forall|t: int| 0 <= t < ws@.len() ==> (#[trigger] ws@[t])@ == words_scan(joined@.subrange(0, i as int)).0[t],
            decreases joined@.len() - i,
        {
            let c = joined[i];
            assert(joined@.subrange(0, i + 1).drop_last() =~= joined@.subrange(0, i as int));
            if char_is_whitespace(c) {
                if cur.len() > 0 {
                    let done = cur;
                    cur = Vec::new();
                    ws.push(done);
                }
            } else {
                cur.push(c);
            }
            i = i + 1;
        }
        assert(joined@.subrange(0, joined@.len() as int) =~= joined@);
        if cur.len() > 0 {
            ws.push(cur);
        }
        let ghost gws = words(joined@);
        assert(ws@.len() == gws.len());
        // Fill lines greedily.
        let mut lines: Vec<Vec<char>> = Vec::new();
        let mut line: Vec<char> = Vec::new();
        let mut line_len: u128 = 0;
        let mut w: usize = 0;
        while w < ws.len()
            invariant
                ws@.len() == gws.len(),
                forall|t: int| 0 <= t < ws@.len() ==> (#[trigger] ws@[t])@ == gws[t],
                0 <= w <= ws@.len(),
                fill_scan(gws.subrange(0, w as int), width as int).1 == line@,
                fill_scan(gws.subrange(0, w as int), width as int).0.len() == lines@.len(),
                forall|t: int| 0 <= t < lines@.len() ==> (#[trigger] lines@[t])@ == fill_scan(gws.subrange(0, w as int), width as int).0[t],
                line_len == utf8_len(line@),
                line_len <= 4 * line@.len(),
            decreases ws@.len() - w,
        {
            let word = &ws[w];
            let wl = utf8_len_of(word);
            let _ = line.len();
            assert(gws.subrange(0, w + 1).drop_last() =~= gws.subrange(0, w as int));
            if line.len() > 0 && line_len + 1 + wl > width as u128 {
                let done = line;
                line = Vec::new();
                line_len = 0;
                lines.push(done);
            }
            if line.len() > 0 {
                let ghost lb = line@;
                line.push(' ');
                proof {
                    assert(line@.drop_last() =~= lb);
                    assert(utf8_width(' ') == 1);
                }
                line_len = line_len + 1;
            }
            let ghost before = line@;
            append(&mut line, word);
            proof {
                lemma_utf8_len_append(before, word@);
            }
            line_len = line_len + wl;
            w = w + 1;
        }
        assert(gws.subrange(0, gws.len() as int) =~= gws);
        if line.len() > 0 {
            lines.push(line);
        }
        // Keep the last `max_lines`.
        let nl = lines.len();
        let from: usize = if nl > max_lines { nl - max_lines } else { 0 };
        let mut out: Vec<String> = Vec::new();
        let mut r: usize = from;
        while r < nl
            invariant
                nl == lines@.len(),
                from <= r <= nl,
                out@.len() == r - from,
                forall|t: int| 0 <= t < out@.len() ==> (#[trigger] out@[t])@ == lines@[from + t]@,
            decreases nl - r,
        {
            out.push(string_of(&lines[r]));
            r = r + 1;
        }
        out
    }
}

/// The UTF-8 length of a concatenation is the sum of the lengths.
proof fn lemma_utf8_len_append(a: Seq<char>, b: Seq<char>)
    ensures
        utf8_len(a + b) == utf8_len(a) + utf8_len(b),
    decreases b.len(),
{
    if b.len() > 0 {
        lemma_utf8_len_append(a, b.drop_last());
        assert((a + b).drop_last() =~= a + b.drop_last());
    } else {
        assert(a + b =~= a);
    }
}

} // verus!
