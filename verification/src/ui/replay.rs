//! Replay widget: plays back recorded [`Frame`]s, with speed control,
//! pause, frame stepping, time seeking and undo.
//!
//! Auto-play is driven by ticks: when a frame should follow after a delay,
//! [`Replay::update`] returns a [`ReplayEffect::Tick`]; whoever runs the
//! replay waits that long and hands the tick back to [`Replay::tick`].
use vstd::prelude::*;

use std::io::Read;

use crate::geom::{Point, pt};
use crate::grid::{Frame, FrameCell, Grid};
use crate::messages::{Key, MouseAction, Msg};
use crate::recording::{FrameDecoder, decoded_frame};
use crate::style::Style;
use crate::ui::box_::BoxDecor;
use crate::ui::keys::key_in;
use crate::ui::pager::{Pager, PagerAction, PagerConfig, PagerKeys, PagerStyle};
use crate::ui::styled_text::StyledText;
use crate::util::{chars_of, string_of};

verus! {

/// Key bindings for the replay widget.
#[derive(Debug, Clone)]
pub struct ReplayKeys {
    pub quit: Vec<Key>,
    pub pause: Vec<Key>,
    pub speed_more: Vec<Key>,
    pub speed_less: Vec<Key>,
    pub frame_next: Vec<Key>,
    pub frame_prev: Vec<Key>,
    pub forward: Vec<Key>,
    pub backward: Vec<Key>,
    pub help: Vec<Key>,
}

impl Default for ReplayKeys {
    fn default() -> (k: ReplayKeys)
        ensures
            k.quit@ == seq![Key::Escape, Key::Char('q'), Key::Char('Q')],
            k.pause@ == seq![Key::Char(' '), Key::Char('p'), Key::Char('P')],
            k.speed_more@ == seq![Key::Char('+'), Key::Char('}')],
            k.speed_less@ == seq![Key::Char('-'), Key::Char('{')],
            k.frame_next@ == seq![Key::ArrowRight, Key::Char('l')],
            k.frame_prev@ == seq![Key::ArrowLeft, Key::Char('h')],
            k.forward@ == seq![Key::ArrowUp, Key::Char('k')],
            k.backward@ == seq![Key::ArrowDown, Key::Char('j')],
            k.help@ == seq![Key::Char('?')],
    {
        ReplayKeys {
            quit: vec![Key::Escape, Key::Char('q'), Key::Char('Q')],
            pause: vec![Key::Char(' '), Key::Char('p'), Key::Char('P')],
            speed_more: vec![Key::Char('+'), Key::Char('}')],
            speed_less: vec![Key::Char('-'), Key::Char('{')],
            frame_next: vec![Key::ArrowRight, Key::Char('l')],
            frame_prev: vec![Key::ArrowLeft, Key::Char('h')],
            forward: vec![Key::ArrowUp, Key::Char('k')],
            backward: vec![Key::ArrowDown, Key::Char('j')],
            help: vec![Key::Char('?')],
        }
    }
}

/// Actions the replay performs on an update.
#[derive(Debug, Clone, Copy, PartialEq, Eq, Structural)]
pub enum ReplayAction {
    /// Nothing to do.
    Idle,
    Next,
    Previous,
    TogglePause,
    SpeedMore,
    SpeedLess,
    Forward,
    Backward,
}

/// What the replay asks of whoever runs it.
#[derive(Debug, Clone, Copy, PartialEq, Eq, Structural)]
pub enum ReplayEffect {
    /// Wait `delay_ms` milliseconds, then hand `frame` to [`Replay::tick`].
    Tick { delay_ms: u64, frame: usize },
    /// Stop the application.
    End,
}

/// Configuration for creating a [`Replay`].
pub struct ReplayConfig<R> {
    pub grid: Grid,
    pub decoder: FrameDecoder<R>,
    pub keys: ReplayKeys,
}

/// The most keys a binding of the replay holds.
pub open spec fn replay_keys_max() -> int {
    1000
}

/// Whether the key bindings fit the replay's limits.
pub open spec fn replay_keys_ok(k: ReplayKeys) -> bool {
    &&& k.quit@.len() < replay_keys_max()
    &&& k.pause@.len() < replay_keys_max()
    &&& k.speed_more@.len() < replay_keys_max()
    &&& k.speed_less@.len() < replay_keys_max()
    &&& k.frame_next@.len() < replay_keys_max()
    &&& k.frame_prev@.len() < replay_keys_max()
    &&& k.forward@.len() < replay_keys_max()
    &&& k.backward@.len() < replay_keys_max()
    &&& k.help@.len() < replay_keys_max()
}

/// The largest side the replay's grid grows to.
pub open spec fn replay_side_max() -> int {
    0xFFFF
}

/// The time of frame `i`, as the replay compares it (a signed number of
/// milliseconds).
pub open spec fn frame_time(frames: Seq<Frame>, i: int) -> int {
    (frames[i].time_ms as i64) as int
}

/// Seeking forward from frame index `f` to the time `target`: the first
/// index from `f` at the last frame or whose previous frame is not before
/// the target.
pub open spec fn seek_fwd(frames: Seq<Frame>, f: int, target: int) -> int
    decreases frames.len() - f,
{
    if f >= frames.len() || f < 1 || frame_time(frames, f - 1) >= target {
        f
    } else {
        seek_fwd(frames, f + 1, target)
    }
}

/// Seeking backward from frame index `f` to the time `target`: the first
/// index down from `f` at the first frame or whose previous frame is not
/// after the target.
pub open spec fn seek_bwd(frames: Seq<Frame>, f: int, target: int) -> int
    decreases f,
{
    if f <= 1 || f > frames.len() || frame_time(frames, f - 1) <= target {
        f
    } else {
        seek_bwd(frames, f - 1, target)
    }
}

/// The delay before the frame after index `f` is shown: the recorded gap
/// to it (at most two seconds) divided by the speed, at least four
/// milliseconds; four at the ends.
pub open spec fn tick_delay(frames: Seq<Frame>, f: int, speed: int) -> int {
    if 0 < f < frames.len() {
        let prev = frames[f - 1].time_ms as int;
        let cur = frames[f].time_ms as int;
        let d = if cur >= prev { cur - prev } else { 0 };
        let d2 = if d < 2000 { d } else { 2000 };
        let d3 = d2 / speed;
        if d3 > 4 { d3 } else { 4 }
    } else {
        4
    }
}

/// The name a key is shown by in the help: a character key by its
/// character, another by its name.
pub open spec fn key_name(k: Key) -> Seq<char> {
    match k {
        Key::ArrowUp => "ArrowUp"@,
        Key::ArrowDown => "ArrowDown"@,
        Key::ArrowLeft => "ArrowLeft"@,
        Key::ArrowRight => "ArrowRight"@,
        Key::Escape => "Escape"@,
        Key::Enter => "Enter"@,
        Key::Tab => "Tab"@,
        Key::Space => "Space"@,
        Key::Backspace => "Backspace"@,
        Key::Delete => "Delete"@,
        Key::Home => "Home"@,
        Key::End => "End"@,
        Key::PageUp => "PageUp"@,
        Key::PageDown => "PageDown"@,
        Key::Insert => "Insert"@,
        Key::Char(c) => seq![c],
    }
}

/// The names of keys joined by " or ".
pub open spec fn keys_text(ks: Seq<Key>) -> Seq<char>
    decreases ks.len(),
{
    if ks.len() == 0 {
        Seq::empty()
    } else if ks.len() == 1 {
        key_name(ks[0])
    } else {
        keys_text(ks.drop_last()) + seq![' ', 'o', 'r', ' '] + key_name(ks.last())
    }
}

/// A help line: the title padded to thirty characters, a space and the
/// keys.
pub open spec fn help_line(title: Seq<char>, ks: Seq<Key>) -> Seq<char> {
    let pad = if title.len() >= 30 { Seq::<char>::empty() } else { Seq::new((30 - title.len()) as nat, |i: int| ' ') };
    title + pad + seq![' '] + keys_text(ks)
}

/// Append the name of a key.
fn push_key_name(out: &mut Vec<char>, k: Key)
    ensures
        final(out)@ == old(out)@ + key_name(k),
        key_name(k).len() <= 10,
{
    let name: Vec<char> = match k {
        Key::ArrowUp => chars_of("ArrowUp"),
        Key::ArrowDown => chars_of("ArrowDown"),
        Key::ArrowLeft => chars_of("ArrowLeft"),
        Key::ArrowRight => chars_of("ArrowRight"),
        Key::Escape => chars_of("Escape"),
        Key::Enter => chars_of("Enter"),
        Key::Tab => chars_of("Tab"),
        Key::Space => chars_of("Space"),
        Key::Backspace => chars_of("Backspace"),
        Key::Delete => chars_of("Delete"),
        Key::Home => chars_of("Home"),
        Key::End => chars_of("End"),
        Key::PageUp => chars_of("PageUp"),
        Key::PageDown => chars_of("PageDown"),
        Key::Insert => chars_of("Insert"),
        Key::Char(c) => vec![c],
    };
    proof {
        reveal_strlit("ArrowUp");
        reveal_strlit("ArrowDown");
        reveal_strlit("ArrowLeft");
        reveal_strlit("ArrowRight");
        reveal_strlit("Escape");
        reveal_strlit("Enter");
        reveal_strlit("Tab");
        reveal_strlit("Space");
        reveal_strlit("Backspace");
        reveal_strlit("Delete");
        reveal_strlit("Home");
        reveal_strlit("End");
        reveal_strlit("PageUp");
        reveal_strlit("PageDown");
        reveal_strlit("Insert");
    }
    let mut i: usize = 0;
    while i < name.len()
        invariant
            0 <= i <= name@.len(),
            out@ == old(out)@ + name@.subrange(0, i as int),
        decreases name@.len() - i,
    {
        out.push(name[i]);
        i = i + 1;
    }
    assert(name@.subrange(0, name@.len() as int) =~= name@);
}

/// A help line, as `help_line` gives it.
fn make_help_line(title: &str, ks: &Vec<Key>) -> (t: StyledText)
    requires
        title@.len() <= 30,
        ks@.len() < replay_keys_max(),
    ensures
        t.spec_text() == help_line(title@, ks@),
        t.spec_text().len() <= 31 + 14 * ks@.len(),
        t.spec_style() == Style::spec_default(),
{
    let mut out = chars_of(title);
    let mut n: usize = out.len();
    while n < 30
        invariant
            title@.len() <= n <= 30,
            out@ == title@ + Seq::new((n - title@.len()) as nat, |i: int| ' '),
        decreases 30 - n,
    {
        out.push(' ');
        n = n + 1;
        assert(out@ =~= title@ + Seq::new((n - title@.len()) as nat, |i: int| ' '));
    }
    out.push(' ');
    let ghost head = out@;
    assert(head =~= title@ + (if title@.len() >= 30 {
        Seq::<char>::empty()
    } else {
        Seq::new((30 - title@.len()) as nat, |i: int| ' ')
    }) + seq![' ']);
    let mut j: usize = 0;
    while j < ks.len()
        invariant
            0 <= j <= ks@.len(),
            ks@.len() < replay_keys_max(),
            out@ == head + keys_text(ks@.subrange(0, j as int)),
            keys_text(ks@.subrange(0, j as int)).len() <= 14 * j,
        decreases ks@.len() - j,
    {
        assert(ks@.subrange(0, j + 1).drop_last() =~= ks@.subrange(0, j as int));
        if j > 0 {
            out.push(' ');
            out.push('o');
            out.push('r');
            out.push(' ');
        }
        push_key_name(&mut out, ks[j]);
        j = j + 1;
        proof {
            let s = ks@.subrange(0, j as int);
            if j == 1 {
                assert(out@ =~= head + key_name(s[0]));
            } else {
                assert(out@ =~= head + (keys_text(s.drop_last()) + seq![' ', 'o', 'r', ' '] + key_name(s.last())));
            }
        }
    }
    assert(ks@.subrange(0, ks@.len() as int) =~= ks@);
    StyledText::textf(string_of(&out))
}

/// Replays a recorded session frame by frame.
pub struct Replay<R> {
    decoder: FrameDecoder<R>,
    frames: Vec<Frame>,
    /// The grid the frames are applied to.
    pub grid: Grid,
    undo: Vec<Vec<FrameCell>>,
    fidx: usize,
    auto_play: bool,
    speed: u32,
    /// The action of the last update.
    pub action: ReplayAction,
    is_init: bool,
    keys: ReplayKeys,
    dirty: bool,
    help: bool,
    /// The help overlay, while it is shown.
    pub help_pager: Option<Pager>,
}

impl<R: Read> Replay<R> {
    /// The frames decoded so far.
    pub closed spec fn spec_frames(&self) -> Seq<Frame> {
        self.frames@
    }

    /// The number of frames applied.
    pub closed spec fn spec_fidx(&self) -> int {
        self.fidx as int
    }

    /// The number of frames that can be undone.
    pub closed spec fn spec_undo_len(&self) -> int {
        self.undo@.len() as int
    }

    pub closed spec fn spec_auto_play(&self) -> bool {
        self.auto_play
    }

    pub closed spec fn spec_speed(&self) -> int {
        self.speed as int
    }

    pub closed spec fn spec_help(&self) -> bool {
        self.help
    }

    pub closed spec fn spec_init(&self) -> bool {
        self.is_init
    }

    pub closed spec fn spec_keys(&self) -> ReplayKeys {
        self.keys
    }

    pub closed spec fn spec_action(&self) -> ReplayAction {
        self.action
    }

    pub closed spec fn has_pager(&self) -> bool {
        self.help_pager is Some
    }

    /// The speed stays between one and 64, the frame index within the
    /// frames, the grid within the replay's limits, and the help pager is
    /// one the replay made.
    pub closed spec fn wf(&self) -> bool {
        &&& 1 <= self.speed <= 64
        &&& self.fidx <= self.frames@.len()
        &&& replay_keys_ok(self.keys)
        &&& self.grid@.min == pt(0, 0)
        &&& 0 <= self.grid@.max.x <= replay_side_max()
        &&& 0 <= self.grid@.max.y <= replay_side_max()
        &&& self.help == (self.help_pager is Some)
        &&& match self.help_pager {
            Some(p) => {
                &&& p.wf()
                &&& forall|reach: int| reach < 0x4000_0000 ==> #[trigger] p.box_fits(reach)
                &&& forall|i: int| 0 <= i < p.spec_len() ==> (#[trigger] p.spec_lines()[i]).spec_text().len() < 0x1000_0000
            },
            None => true,
        }
    }

    /// A replay at its start: no frame decoded or applied, playing at
    /// normal speed.
    pub fn new(cfg: ReplayConfig<R>) -> (r: Replay<R>)
        requires
            replay_keys_ok(cfg.keys),
            cfg.grid@.min == pt(0, 0),
            0 <= cfg.grid@.max.x <= replay_side_max(),
            0 <= cfg.grid@.max.y <= replay_side_max(),
        ensures
            r.wf(),
            r.spec_frames().len() == 0,
            r.spec_fidx() == 0,
            r.spec_undo_len() == 0,
            r.spec_auto_play(),
            r.spec_speed() == 1,
            !r.spec_help(),
            !r.spec_init(),
            r.spec_keys() == cfg.keys,
            r.spec_action() == ReplayAction::Idle,
            !r.has_pager(),
    {
        Replay {
            decoder: cfg.decoder,
            frames: Vec::new(),
            grid: cfg.grid,
            undo: Vec::new(),
            fidx: 0,
            auto_play: true,
            speed: 1,
            action: ReplayAction::Idle,
            is_init: false,
            keys: cfg.keys,
            dirty: true,
            help: false,
            help_pager: None,
        }
    }

    /// The number of frames applied.
    pub fn frame_index(&self) -> (i: usize)
        ensures
            i == self.spec_fidx(),
    {
        self.fidx
    }

    /// Whether auto-play is on.
    pub fn is_auto_play(&self) -> (b: bool)
        ensures
            b == self.spec_auto_play(),
    {
        self.auto_play
    }

    /// The speed multiplier.
    pub fn speed(&self) -> (s: u32)
        ensures
            s == self.spec_speed(),
    {
        self.speed
    }

    /// Whether the help overlay is shown.
    pub fn is_help(&self) -> (b: bool)
        ensures
            b == self.spec_help(),
    {
        self.help
    }

    /// Decode one more frame when all those decoded are applied; whether
    /// one comes depends on the input.
    fn decode_next(&mut self)
        requires
            old(self).wf(),
        ensures
            final(self).wf(),
            final(self).frames@.len() <= old(self).frames@.len() + 1,
            final(self).frames@.subrange(0, old(self).frames@.len() as int) == old(self).frames@,
            old(self).fidx < old(self).frames@.len() ==> final(self).frames@ == old(self).frames@,
            final(self).frames@.len() > old(self).frames@.len() ==> decoded_frame(final(self).frames@.last()),
            final(self).fidx == old(self).fidx,
            final(self).undo@ == old(self).undo@,
            final(self).auto_play == old(self).auto_play,
            final(self).speed == old(self).speed,
            final(self).action == old(self).action,
            final(self).help == old(self).help,
            final(self).is_init == old(self).is_init,
            final(self).keys == old(self).keys,
            final(self).grid@ == old(self).grid@,
    {
        if self.fidx >= self.frames.len() {
            match self.decoder.decode() {
                Ok(Some(frame)) => {
                    self.frames.push(frame);
                },
                _ => {},
            }
        }
    }

    /// Apply frame `fidx` (counting from one) to the grid, growing the grid
    /// to the frame's size (within the replay's limits), and record what
    /// it overwrote for undoing.
    fn apply_next(&mut self)
        requires
            old(self).wf(),
        ensures
            final(self).wf(),
            final(self).undo@.len() == old(self).undo@.len() + if 1 <= old(self).fidx <= old(self).frames@.len() {
                1int
            } else {
                0int
            },
            final(self).frames@ == old(self).frames@,
            final(self).fidx == old(self).fidx,
            final(self).auto_play == old(self).auto_play,
            final(self).speed == old(self).speed,
            final(self).action == old(self).action,
            final(self).help == old(self).help,
            final(self).is_init == old(self).is_init,
            final(self).keys == old(self).keys,
    {
        if self.fidx == 0 || self.fidx > self.frames.len() {
            return;
        }
        let frame = &self.frames[self.fidx - 1];
        let gs = self.grid.size();
        if frame.width > gs.x || frame.height > gs.y {
            let new_w: i32 = if frame.width > gs.x { frame.width } else { gs.x };
            let new_h: i32 = if frame.height > gs.y { frame.height } else { gs.y };
            if new_w <= 0xFFFF && new_h <= 0xFFFF {
                assert(0 <= new_w * new_h <= 0xFFFF * 0xFFFF) by (nonlinear_arith)
                    requires
                        0 <= new_w <= 0xFFFF,
                        0 <= new_h <= 0xFFFF,
                ;
                self.grid.resize(new_w, new_h);
            }
        }
        let mut undo_cells: Vec<FrameCell> = Vec::new();
        let mut i: usize = 0;
        while i < frame.cells.len()
            invariant
                0 <= i <= frame.cells@.len(),
                self.grid@.min == pt(0, 0),
            decreases frame.cells@.len() - i,
        {
            let fc = frame.cells[i];
            let old_cell = self.grid.at(fc.pos);
            undo_cells.push(FrameCell { cell: old_cell, pos: fc.pos });
            self.grid.set(fc.pos, fc.cell);
            i = i + 1;
        }
        self.undo.push(undo_cells);
    }

    /// Undo the last frame applied.
    fn apply_previous(&mut self)
        requires
            old(self).wf(),
        ensures
            final(self).wf(),
            final(self).undo@ == if old(self).undo@.len() > 0 {
                old(self).undo@.drop_last()
            } else {
                old(self).undo@
            },
            final(self).frames@ == old(self).frames@,
            final(self).fidx == old(self).fidx,
            final(self).auto_play == old(self).auto_play,
            final(self).speed == old(self).speed,
            final(self).action == old(self).action,
            final(self).help == old(self).help,
            final(self).is_init == old(self).is_init,
            final(self).keys == old(self).keys,
            final(self).grid@ == old(self).grid@,
    {
        if let Some(undo_cells) = self.undo.pop() {
            let mut i: usize = 0;
            while i < undo_cells.len()
                invariant
                    0 <= i <= undo_cells@.len(),
                    self.grid@.min == pt(0, 0),
                decreases undo_cells@.len() - i,
            {
                let fc = undo_cells[i];
                self.grid.set(fc.pos, fc.cell);
                i = i + 1;
            }
        }
    }
}

impl<R: Read> Replay<R> {
    /// Carry out the action on the frame index, the play state and the
    /// speed: stepping forward (decoding a frame when needed; the action is
    /// dropped at the end), stepping back (dropped at the start), pausing,
    /// doubling the speed up to 64 or halving it down to one.
    pub fn handle_action(&mut self)
        requires
            old(self).wf(),
        ensures
            final(self).wf(),
            final(self).spec_frames().len() <= old(self).spec_frames().len() + 1,
            final(self).spec_frames().subrange(0, old(self).spec_frames().len() as int) == old(self).spec_frames(),
            final(self).spec_undo_len() == old(self).spec_undo_len(),
            final(self).spec_help() == old(self).spec_help(),
            final(self).spec_init() == old(self).spec_init(),
            final(self).spec_keys() == old(self).spec_keys(),
            ({
                let a = old(self).spec_action();
                let f = old(self).spec_fidx();
                let nf = final(self).spec_frames().len();
                match a {
                    ReplayAction::Next => if f >= nf {
                        final(self).spec_action() == ReplayAction::Idle && final(self).spec_fidx() == f
                    } else {
                        final(self).spec_action() == a && final(self).spec_fidx() == f + 1
                    },
                    ReplayAction::Previous => if f == 0 {
                        final(self).spec_action() == ReplayAction::Idle && final(self).spec_fidx() == f
                    } else {
                        final(self).spec_action() == a && final(self).spec_fidx() == f - 1
                    },
                    _ => final(self).spec_action() == a && final(self).spec_fidx() == f,
                }
            }),
            old(self).spec_action() != ReplayAction::Next ==> final(self).spec_frames() == old(self).spec_frames(),
            final(self).spec_auto_play() == if old(self).spec_action() == ReplayAction::TogglePause {
                !old(self).spec_auto_play()
            } else {
                old(self).spec_auto_play()
            },
            final(self).spec_speed() == match old(self).spec_action() {
                ReplayAction::SpeedMore => if old(self).spec_speed() * 2 < 64 { old(self).spec_speed() * 2 } else { 64 },
                ReplayAction::SpeedLess => if old(self).spec_speed() / 2 > 1 { old(self).spec_speed() / 2 } else { 1 },
                _ => old(self).spec_speed(),
            },
    {
        match self.action {
            ReplayAction::Next => {
                self.decode_next();
                if self.fidx >= self.frames.len() {
                    self.action = ReplayAction::Idle;
                    return;
                }
                self.fidx = self.fidx + 1;
            },
            ReplayAction::Previous => {
                if self.fidx == 0 {
                    self.action = ReplayAction::Idle;
                    return;
                }
                self.fidx = self.fidx - 1;
            },
            ReplayAction::TogglePause => {
                self.auto_play = !self.auto_play;
            },
            ReplayAction::SpeedMore => {
                let s: u32 = self.speed * 2;
                self.speed = if s < 64 { s } else { 64 };
            },
            ReplayAction::SpeedLess => {
                let s: u32 = self.speed / 2;
                self.speed = if s > 1 { s } else { 1 };
            },
            _ => {},
        }
    }

    /// Seek by `delta_ms` milliseconds from the time of the last frame
    /// applied: forward, applying frames while the last one applied is
    /// before the target time; backward, undoing frames while it is after.
    /// One frame is decoded first if all are applied.
    pub fn seek_ms(&mut self, delta_ms: i64)
        requires
            old(self).wf(),
        ensures
            final(self).wf(),
            final(self).spec_frames().len() <= old(self).spec_frames().len() + 1,
            final(self).spec_frames().subrange(0, old(self).spec_frames().len() as int) == old(self).spec_frames(),
            ({
                let fs = final(self).spec_frames();
                let f = old(self).spec_fidx();
                final(self).spec_fidx() == if fs.len() == 0 || f == 0 {
                    f
                } else if delta_ms > 0 {
                    seek_fwd(fs, f, frame_time(fs, f - 1) + delta_ms)
                } else {
                    seek_bwd(fs, f, frame_time(fs, f - 1) + delta_ms)
                }
            }),
            old(self).spec_undo_len() == old(self).spec_fidx() ==> final(self).spec_undo_len() == final(self).spec_fidx(),
            final(self).spec_auto_play() == old(self).spec_auto_play(),
            final(self).spec_speed() == old(self).spec_speed(),
            final(self).spec_action() == old(self).spec_action(),
            final(self).spec_help() == old(self).spec_help(),
            final(self).spec_init() == old(self).spec_init(),
            final(self).spec_keys() == old(self).spec_keys(),
    {
        self.decode_next();
        if self.frames.len() == 0 {
            return;
        }
        if self.fidx == 0 || self.fidx > self.frames.len() {
            return;
        }
        let current: i128 = self.frames[self.fidx - 1].time_ms as i64 as i128;
        let target: i128 = current + delta_ms as i128;
        let ghost fs = self.frames@;
        let ghost u0 = self.undo@.len() as int - self.fidx as int;
        if delta_ms > 0 {
            while self.fidx < self.frames.len() && ((self.frames[self.fidx - 1].time_ms as i64) as i128) < target
                invariant
                    self.wf(),
                    self.frames@ == fs,
                    1 <= self.fidx <= fs.len(),
                    self.undo@.len() as int - self.fidx as int == u0,
                    seek_fwd(fs, old(self).fidx as int, target as int) == seek_fwd(fs, self.fidx as int, target as int),
                    self.auto_play == old(self).auto_play,
                    self.speed == old(self).speed,
                    self.action == old(self).action,
                    self.help == old(self).help,
                    self.is_init == old(self).is_init,
                    self.keys == old(self).keys,
                ensures
                    seek_fwd(fs, self.fidx as int, target as int) == self.fidx,
                decreases fs.len() - self.fidx,
            {
                self.decode_next();
                if self.fidx >= self.frames.len() {
                    break;
                }
                self.fidx = self.fidx + 1;
                self.apply_next();
            }
            assert(seek_fwd(fs, self.fidx as int, target as int) == self.fidx);
            assert(target as int == frame_time(fs, old(self).fidx - 1) + delta_ms);
        } else {
            while self.fidx > 1 && ((self.frames[self.fidx - 1].time_ms as i64) as i128) > target
                invariant
                    self.wf(),
                    self.frames@ == fs,
                    1 <= self.fidx <= fs.len(),
                    self.undo@.len() as int - self.fidx as int == u0 || (u0 < 0 && self.undo@.len() == 0),
                    u0 == 0 ==> self.undo@.len() == self.fidx,
                    seek_bwd(fs, old(self).fidx as int, target as int) == seek_bwd(fs, self.fidx as int, target as int),
                    self.auto_play == old(self).auto_play,
                    self.speed == old(self).speed,
                    self.action == old(self).action,
                    self.help == old(self).help,
                    self.is_init == old(self).is_init,
                    self.keys == old(self).keys,
                decreases self.fidx,
            {
                self.fidx = self.fidx - 1;
                self.apply_previous();
            }
            assert(seek_bwd(fs, self.fidx as int, target as int) == self.fidx);
            assert(target as int == frame_time(fs, old(self).fidx - 1) + delta_ms);
        }
        self.dirty = true;
    }

    /// Carry out the drawing side of the action: apply or undo a frame,
    /// or seek a minute forward or backward.
    pub fn apply_draw_action(&mut self)
        requires
            old(self).wf(),
        ensures
            final(self).wf(),
            final(self).spec_action() == old(self).spec_action(),
            final(self).spec_auto_play() == old(self).spec_auto_play(),
            final(self).spec_speed() == old(self).spec_speed(),
            final(self).spec_help() == old(self).spec_help(),
            final(self).spec_init() == old(self).spec_init(),
            final(self).spec_keys() == old(self).spec_keys(),
            final(self).spec_frames().len() <= old(self).spec_frames().len() + 1,
            final(self).spec_frames().subrange(0, old(self).spec_frames().len() as int) == old(self).spec_frames(),
            ({
                let fs = final(self).spec_frames();
                let f = old(self).spec_fidx();
                match old(self).spec_action() {
                    ReplayAction::Forward => final(self).spec_fidx() == if fs.len() == 0 || f == 0 {
                        f
                    } else {
                        seek_fwd(fs, f, frame_time(fs, f - 1) + 60000)
                    },
                    ReplayAction::Backward => final(self).spec_fidx() == if fs.len() == 0 || f == 0 {
                        f
                    } else {
                        seek_bwd(fs, f, frame_time(fs, f - 1) - 60000)
                    },
                    _ => final(self).spec_fidx() == f && fs == old(self).spec_frames(),
                }
            }),
            old(self).spec_action() == ReplayAction::Next && old(self).spec_undo_len() + 1 == old(self).spec_fidx()
                ==> final(self).spec_undo_len() == final(self).spec_fidx(),
            old(self).spec_action() == ReplayAction::Previous && old(self).spec_undo_len() == old(self).spec_fidx() + 1
                ==> final(self).spec_undo_len() == final(self).spec_fidx(),
            (old(self).spec_action() != ReplayAction::Next && old(self).spec_action() != ReplayAction::Previous
                && old(self).spec_undo_len() == old(self).spec_fidx()) ==> final(self).spec_undo_len()
                == final(self).spec_fidx(),
    {
        match self.action {
            ReplayAction::Next => self.apply_next(),
            ReplayAction::Previous => self.apply_previous(),
            ReplayAction::Forward => self.seek_ms(60000),
            ReplayAction::Backward => self.seek_ms(-60000),
            _ => {},
        }
        if self.action != ReplayAction::Idle {
            self.dirty = true;
        }
    }

    /// Move to frame index `n`, applying or undoing frames (decoding them
    /// as needed); it stops short of `n` when the input has no more frames.
    pub fn set_frame(&mut self, n: usize)
        requires
            old(self).wf(),
        ensures
            final(self).wf(),
            old(self).spec_fidx() >= n ==> final(self).spec_fidx() == n,
            old(self).spec_fidx() < n ==> old(self).spec_fidx() <= final(self).spec_fidx() <= n,
            final(self).spec_fidx() < n ==> final(self).spec_fidx() == final(self).spec_frames().len(),
            final(self).spec_frames().subrange(0, old(self).spec_frames().len() as int) == old(self).spec_frames(),
            old(self).spec_undo_len() == old(self).spec_fidx() ==> final(self).spec_undo_len() == final(self).spec_fidx(),
            final(self).spec_auto_play() == old(self).spec_auto_play(),
            final(self).spec_speed() == old(self).spec_speed(),
            final(self).spec_action() == old(self).spec_action(),
            final(self).spec_help() == old(self).spec_help(),
            final(self).spec_keys() == old(self).spec_keys(),
    {
        let ghost u0 = self.undo@.len() as int - self.fidx as int;
        let ghost f0 = self.fidx;
        let ghost fr0 = self.frames@;
        while self.fidx < n
            invariant
                self.wf(),
                self.fidx <= if f0 > n { f0 } else { n },
                f0 <= self.fidx,
                f0 >= n ==> self.fidx == f0,
                self.frames@.subrange(0, fr0.len() as int) == fr0,
                fr0.len() <= self.frames@.len(),
                self.undo@.len() as int - self.fidx as int == u0,
                self.auto_play == old(self).auto_play,
                self.speed == old(self).speed,
                self.action == old(self).action,
                self.help == old(self).help,
                self.keys == old(self).keys,
            ensures
                f0 <= self.fidx <= if f0 > n { f0 } else { n },
                self.fidx < n ==> self.fidx == self.frames@.len(),
            decreases n - self.fidx,
        {
            let ghost fb = self.frames@;
            self.decode_next();
            assert(self.frames@.subrange(0, fr0.len() as int) =~= fb.subrange(0, fr0.len() as int));
            if self.fidx >= self.frames.len() {
                break;
            }
            self.fidx = self.fidx + 1;
            self.apply_next();
        }
        let ghost f1 = self.fidx;
        let ghost fr1 = self.frames@;
        while self.fidx > n
            invariant
                self.wf(),
                self.frames@ == fr1,
                f0 <= f1,
                f1 <= n ==> self.fidx == f1,
                f1 < n ==> f1 == fr1.len(),
                self.fidx < n ==> self.fidx == f1,
                self.fidx <= f1,
                f1 >= n ==> n <= self.fidx,
                self.frames@.subrange(0, fr0.len() as int) == fr0,
                fr0.len() <= self.frames@.len(),
                self.undo@.len() as int - self.fidx as int == u0 || (u0 < 0 && self.undo@.len() == 0),
                u0 == 0 ==> self.undo@.len() == self.fidx,
                f1 > n ==> f1 == f0,
                self.auto_play == old(self).auto_play,
                self.speed == old(self).speed,
                self.action == old(self).action,
                self.help == old(self).help,
                self.keys == old(self).keys,
            decreases self.fidx,
        {
            self.fidx = self.fidx - 1;
            self.apply_previous();
        }
        self.dirty = true;
    }

    /// The tick to ask for while playing: the delay before the next frame
    /// and the current frame index; none when paused or past the frames.
    fn tick_effect(&self) -> (e: Option<ReplayEffect>)
        requires
            self.wf(),
        ensures
            e == if !self.auto_play || self.fidx > self.frames@.len() {
                None
            } else {
                Some(ReplayEffect::Tick {
                    delay_ms: tick_delay(self.frames@, self.fidx as int, self.speed as int) as u64,
                    frame: self.fidx,
                })
            },
    {
        if !self.auto_play || self.fidx > self.frames.len() {
            return None;
        }
        let delay_ms: u64 = if self.fidx > 0 && self.fidx < self.frames.len() {
            let prev_t: u64 = self.frames[self.fidx - 1].time_ms;
            let curr_t: u64 = self.frames[self.fidx].time_ms;
            let d: u64 = if curr_t >= prev_t { curr_t - prev_t } else { 0 };
            let d2: u64 = if d < 2000 { d } else { 2000 };
            let d3: u64 = d2 / (self.speed as u64);
            if d3 > 4 { d3 } else { 4 }
        } else {
            4
        };
        Some(ReplayEffect::Tick { delay_ms, frame: self.fidx })
    }
}

/// The titles of the help lines, in order.
pub open spec fn help_titles() -> Seq<Seq<char>> {
    seq![
        "Quit"@,
        "Pause"@,
        "Speed more"@,
        "Speed less"@,
        "Next frame"@,
        "Previous frame"@,
        "Forward"@,
        "Backward"@,
        "Help"@,
    ]
}

/// The key bindings in the order of the help lines.
pub open spec fn help_keys(k: ReplayKeys) -> Seq<Seq<Key>> {
    seq![k.quit@, k.pause@, k.speed_more@, k.speed_less@, k.frame_next@, k.frame_prev@, k.forward@, k.backward@, k.help@]
}

/// The action a key asks for, the bindings tried in order (quit and help
/// are handled before).
pub open spec fn replay_key_action(k: ReplayKeys, key: Key) -> ReplayAction {
    if k.pause@.contains(key) {
        ReplayAction::TogglePause
    } else if k.speed_more@.contains(key) {
        ReplayAction::SpeedMore
    } else if k.speed_less@.contains(key) {
        ReplayAction::SpeedLess
    } else if k.frame_next@.contains(key) {
        ReplayAction::Next
    } else if k.frame_prev@.contains(key) {
        ReplayAction::Previous
    } else if k.forward@.contains(key) {
        ReplayAction::Forward
    } else if k.backward@.contains(key) {
        ReplayAction::Backward
    } else {
        ReplayAction::Idle
    }
}

/// The action a mouse button asks for inside the grid.
pub open spec fn replay_mouse_action(action: MouseAction) -> ReplayAction {
    match action {
        MouseAction::Main => ReplayAction::TogglePause,
        MouseAction::Auxiliary => ReplayAction::Next,
        MouseAction::Secondary => ReplayAction::Previous,
        _ => ReplayAction::Idle,
    }
}

/// The speed after an action.
pub open spec fn speed_after(a: ReplayAction, s: int) -> int {
    match a {
        ReplayAction::SpeedMore => if s * 2 < 64 { s * 2 } else { 64 },
        ReplayAction::SpeedLess => if s / 2 > 1 { s / 2 } else { 1 },
        _ => s,
    }
}

impl<R: Read> Replay<R> {
    /// The help lines: for each binding, its title padded to thirty
    /// characters and its keys.
    pub fn build_help_lines(&self) -> (v: Vec<StyledText>)
        requires
            self.wf(),
        ensures
            v@.len() == 9,
            forall|i: int| 0 <= i < 9 ==> (#[trigger] v@[i]).spec_text() == help_line(help_titles()[i], help_keys(self.spec_keys())[i]),
            forall|i: int| 0 <= i < 9 ==> (#[trigger] v@[i]).spec_text().len() < 20000,
    {
        proof {
            reveal_strlit("Quit");
            reveal_strlit("Pause");
            reveal_strlit("Speed more");
            reveal_strlit("Speed less");
            reveal_strlit("Next frame");
            reveal_strlit("Previous frame");
            reveal_strlit("Forward");
            reveal_strlit("Backward");
            reveal_strlit("Help");
        }
        let mut lines: Vec<StyledText> = Vec::new();
        lines.push(make_help_line("Quit", &self.keys.quit));
        lines.push(make_help_line("Pause", &self.keys.pause));
        lines.push(make_help_line("Speed more", &self.keys.speed_more));
        lines.push(make_help_line("Speed less", &self.keys.speed_less));
        lines.push(make_help_line("Next frame", &self.keys.frame_next));
        lines.push(make_help_line("Previous frame", &self.keys.frame_prev));
        lines.push(make_help_line("Forward", &self.keys.forward));
        lines.push(make_help_line("Backward", &self.keys.backward));
        lines.push(make_help_line("Help", &self.keys.help));
        lines
    }

    /// Show the help: a pager of the help lines, boxed and titled, the
    /// size of the grid, closed by Escape or a help key.
    fn enter_help(&mut self)
        requires
            old(self).wf(),
        ensures
            final(self).wf(),
            final(self).help,
            final(self).help_pager is Some,
            final(self).frames@ == old(self).frames@,
            final(self).fidx == old(self).fidx,
            final(self).undo@ == old(self).undo@,
            final(self).auto_play == old(self).auto_play,
            final(self).speed == old(self).speed,
            final(self).action == old(self).action,
            final(self).is_init == old(self).is_init,
            final(self).keys == old(self).keys,
    {
        let gs = self.grid.size();
        let mut quit_keys: Vec<Key> = vec![Key::Escape];
        let mut i: usize = 0;
        while i < self.keys.help.len()
            invariant
                0 <= i <= self.keys.help@.len(),
                quit_keys@.len() <= i + 1,
            decreases self.keys.help@.len() - i,
        {
            let k = self.keys.help[i];
            if !key_in(&quit_keys, k) {
                quit_keys.push(k);
            }
            i = i + 1;
        }
        let help_lines = self.build_help_lines();
        let mut content: Vec<char> = Vec::new();
        let mut j: usize = 0;
        while j < help_lines.len()
            invariant
                help_lines@.len() == 9,
                forall|i: int| 0 <= i < 9 ==> (#[trigger] help_lines@[i]).spec_text().len() < 20000,
                0 <= j <= 9,
                content@.len() <= 20001 * j,
            decreases 9 - j,
        {
            if j > 0 {
                content.push('\n');
            }
            let t = chars_of(help_lines[j].content());
            let mut q: usize = 0;
            while q < t.len()
                invariant
                    0 <= q <= t@.len(),
                    t@.len() < 20000,
                    content@.len() <= 20001 * j + 1 + q,
                decreases t@.len() - q,
            {
                content.push(t[q]);
                q = q + 1;
            }
            j = j + 1;
        }
        let mut b = BoxDecor::new();
        b.title = StyledText::text("Help");
        proof {
            reveal_strlit("Help");
            assert(0 <= gs.x * gs.y <= 0xFFFF * 0xFFFF) by (nonlinear_arith)
                requires
                    0 <= gs.x <= 0xFFFF,
                    0 <= gs.y <= 0xFFFF,
            ;
        }
        let pkeys = PagerKeys { quit: quit_keys, ..PagerKeys::default() };
        let mut pager = Pager::new(
            PagerConfig {
                content: StyledText::textf(string_of(&content)),
                grid: Grid::new(gs.x, gs.y),
                keys: pkeys,
                box_: Some(b),
                style: PagerStyle::default(),
            },
        );
        pager.set_lines(help_lines);
        self.help_pager = Some(pager);
        self.help = true;
    }

    /// A message while the help is shown goes to its pager; the help
    /// closes when the pager quits.
    fn update_help(&mut self, msg: Msg)
        requires
            old(self).wf(),
        ensures
            final(self).wf(),
            final(self).frames@ == old(self).frames@,
            final(self).fidx == old(self).fidx,
            final(self).undo@ == old(self).undo@,
            final(self).auto_play == old(self).auto_play,
            final(self).speed == old(self).speed,
            final(self).action == old(self).action,
            final(self).is_init == old(self).is_init,
            final(self).keys == old(self).keys,
            final(self).grid@ == old(self).grid@,
            final(self).help ==> old(self).help,
            match old(self).help_pager {
                Some(p) => if p.spec_scroll_x() <= i32::MAX - 8 && p.quits_on(msg) {
                    !final(self).help && final(self).help_pager is None
                } else {
                    final(self).help == old(self).help && final(self).help_pager is Some
                },
                None => *final(self) == *old(self),
            },
    {
        let taken = self.help_pager.take();
        if let Some(mut pager) = taken {
            let sc = pager.scroll();
            if sc.x > i32::MAX - 8 {
                self.help_pager = Some(pager);
                return;
            }
            let action = pager.update(msg);
            if action == PagerAction::Quit {
                self.help = false;
                self.help_pager = None;
                self.dirty = true;
            } else {
                self.help_pager = Some(pager);
            }
        }
    }

    /// The action a mouse button asks for inside the grid; a button press
    /// outside it is ignored.
    fn update_mouse(&mut self, action: MouseAction, pos: Point)
        requires
            old(self).wf(),
            old(self).action == ReplayAction::Idle,
        ensures
            final(self).wf(),
            ({
                let inside = old(self).grid.rel_range().spec_contains(pos);
                let a = if inside { replay_mouse_action(action) } else { ReplayAction::Idle };
                &&& final(self).action == a
                &&& final(self).auto_play == if a == ReplayAction::Next || a == ReplayAction::Previous {
                    false
                } else {
                    old(self).auto_play
                }
            }),
            final(self).frames@ == old(self).frames@,
            final(self).fidx == old(self).fidx,
            final(self).undo@ == old(self).undo@,
            final(self).speed == old(self).speed,
            final(self).help == old(self).help,
            final(self).is_init == old(self).is_init,
            final(self).keys == old(self).keys,
    {
        if !self.grid.range_().contains(pos) {
            return;
        }
        match action {
            MouseAction::Main => {
                self.action = ReplayAction::TogglePause;
            },
            MouseAction::Auxiliary => {
                self.action = ReplayAction::Next;
                self.auto_play = false;
            },
            MouseAction::Secondary => {
                self.action = ReplayAction::Previous;
                self.auto_play = false;
            },
            _ => {},
        }
    }
}

impl<R: Read> Replay<R> {
    /// The action a message asks for, before it is carried out (quit, help
    /// and start are dealt with on their own).
    pub open spec fn asked(&self, msg: Msg) -> ReplayAction {
        match msg {
            Msg::KeyDown { key, .. } => replay_key_action(self.spec_keys(), key),
            Msg::Mouse { action, pos, .. } => if self.spec_grid().spec_width() > pos.x >= 0
                && self.spec_grid().spec_height() > pos.y >= 0 {
                replay_mouse_action(action)
            } else {
                ReplayAction::Idle
            },
            _ => ReplayAction::Idle,
        }
    }

    /// The bounds of the replay's grid.
    pub closed spec fn spec_grid(&self) -> crate::geom::Range {
        self.grid@
    }

    /// The tick that follows a state: while playing and not past the
    /// frames, after a step, a delay or a pause change.
    pub open spec fn next_tick(&self) -> Option<ReplayEffect> {
        if self.spec_auto_play() && self.spec_fidx() <= self.spec_frames().len() && self.spec_action()
            != ReplayAction::Idle {
            Some(
                ReplayEffect::Tick {
                    delay_ms: tick_delay(self.spec_frames(), self.spec_fidx(), self.spec_speed()) as u64,
                    frame: self.spec_fidx() as usize,
                },
            )
        } else {
            None
        }
    }

    /// Carry out an asked action and say what follows.
    fn perform(&mut self) -> (r: Option<ReplayEffect>)
        requires
            old(self).wf(),
        ensures
            final(self).wf(),
            r == final(self).next_tick(),
            final(self).spec_help() == old(self).spec_help(),
            final(self).spec_init() == old(self).spec_init(),
            final(self).spec_keys() == old(self).spec_keys(),
            final(self).spec_auto_play() == if old(self).spec_action() == ReplayAction::TogglePause {
                !old(self).spec_auto_play()
            } else {
                old(self).spec_auto_play()
            },
            final(self).spec_speed() == speed_after(old(self).spec_action(), old(self).spec_speed()),
            final(self).spec_frames().subrange(0, old(self).spec_frames().len() as int) == old(self).spec_frames(),
            ({
                let a = old(self).spec_action();
                let f = old(self).spec_fidx();
                match a {
                    ReplayAction::Next => (final(self).spec_fidx() == f + 1 && final(self).spec_action() == a) || (
                    final(self).spec_fidx() == f && final(self).spec_action() == ReplayAction::Idle),
                    ReplayAction::Previous => if f == 0 {
                        final(self).spec_fidx() == 0 && final(self).spec_action() == ReplayAction::Idle
                    } else {
                        final(self).spec_fidx() == f - 1 && final(self).spec_action() == a
                    },
                    ReplayAction::Forward => final(self).spec_fidx() >= f,
                    ReplayAction::Backward => final(self).spec_fidx() <= f,
                    _ => final(self).spec_fidx() == f && final(self).spec_action() == a,
                }
            }),
            old(self).spec_undo_len() == old(self).spec_fidx() ==> final(self).spec_undo_len() == final(self).spec_fidx(),
    {
        let ghost f0 = self.fidx;
        let ghost fr0 = self.frames@;
        self.handle_action();
        let ghost fr1 = self.frames@;
        self.apply_draw_action();
        proof {
            assert(self.frames@.subrange(0, fr0.len() as int) =~= fr1.subrange(0, fr0.len() as int));
            let fs = self.frames@;
            if old(self).action == ReplayAction::Forward && fs.len() > 0 && f0 > 0 {
                lemma_seek_fwd(fs, f0 as int, frame_time(fs, f0 - 1) + 60000);
            }
            if old(self).action == ReplayAction::Backward && fs.len() > 0 && f0 > 0 {
                lemma_seek_bwd(fs, f0 as int, frame_time(fs, f0 - 1) - 60000);
            }
        }
        if self.auto_play && self.fidx <= self.frames.len() && self.action != ReplayAction::Idle {
            self.tick_effect()
        } else {
            None
        }
    }

    /// Process a message. While the help is shown it goes to the help. At
    /// start one frame is decoded and the first tick asked for. A quit key
    /// ends the application once started; the help key shows the help.
    /// Other keys and mouse buttons ask for an action (stepping frames
    /// pauses auto-play), which is carried out; the next tick is asked
    /// for when playing and something happened.
    pub fn update(&mut self, msg: Msg) -> (r: Option<ReplayEffect>)
        requires
            old(self).wf(),
        ensures
            final(self).wf(),
            final(self).spec_keys() == old(self).spec_keys(),
            final(self).spec_frames().subrange(0, old(self).spec_frames().len() as int) == old(self).spec_frames(),
            old(self).spec_help() ==> {
                &&& r is None
                &&& final(self).spec_fidx() == old(self).spec_fidx()
                &&& final(self).spec_auto_play() == old(self).spec_auto_play()
                &&& final(self).spec_speed() == old(self).spec_speed()
            },
            !old(self).spec_help() ==> match msg {
                Msg::Init => {
                    &&& final(self).spec_init()
                    &&& final(self).spec_fidx() == old(self).spec_fidx()
                    &&& r == (if final(self).spec_auto_play() && final(self).spec_fidx() <= final(self).spec_frames().len() {
                        Some(
                            ReplayEffect::Tick {
                                delay_ms: tick_delay(final(self).spec_frames(), final(self).spec_fidx(), final(self).spec_speed()) as u64,
                                frame: final(self).spec_fidx() as usize,
                            },
                        )
                    } else {
                        None
                    })
                },
                Msg::KeyDown { key, .. } if old(self).spec_keys().quit@.contains(key) => {
                    &&& r == if old(self).spec_init() { Some(ReplayEffect::End) } else { None }
                    &&& final(self).spec_fidx() == old(self).spec_fidx()
                    &&& final(self).spec_auto_play() == old(self).spec_auto_play()
                },
                Msg::KeyDown { key, .. } if old(self).spec_keys().help@.contains(key) => {
                    &&& r is None
                    &&& final(self).spec_help()
                    &&& final(self).spec_fidx() == old(self).spec_fidx()
                },
                _ => {
                    let a = old(self).asked(msg);
                    let ap = if a == ReplayAction::Next || a == ReplayAction::Previous {
                        false
                    } else {
                        old(self).spec_auto_play()
                    };
                    let f = old(self).spec_fidx();
                    &&& r == final(self).next_tick()
                    &&& final(self).spec_auto_play() == if a == ReplayAction::TogglePause { !ap } else { ap }
                    &&& final(self).spec_speed() == speed_after(a, old(self).spec_speed())
                    &&& a == ReplayAction::Next ==> final(self).spec_fidx() == f + 1 || (final(self).spec_fidx() == f
                        && final(self).spec_action() == ReplayAction::Idle)
                    &&& a == ReplayAction::Previous ==> final(self).spec_fidx() == if f == 0 { 0 } else { f - 1 }
                    &&& (a == ReplayAction::Idle || a == ReplayAction::TogglePause || a == ReplayAction::SpeedMore || a
                        == ReplayAction::SpeedLess) ==> final(self).spec_fidx() == f
                },
            },
            old(self).spec_undo_len() == old(self).spec_fidx() ==> final(self).spec_undo_len() == final(self).spec_fidx(),
    {
        if self.help {
            self.update_help(msg);
            return None;
        }
        self.action = ReplayAction::Idle;
        match msg {
            Msg::Init => {
                self.is_init = true;
                self.decode_next();
                return self.tick_effect();
            },
            Msg::KeyDown { key, .. } => {
                if key_in(&self.keys.quit, key) {
                    if self.is_init {
                        return Some(ReplayEffect::End);
                    }
                    return None;
                } else if key_in(&self.keys.help, key) {
                    self.enter_help();
                    return None;
                } else if key_in(&self.keys.pause, key) {
                    self.action = ReplayAction::TogglePause;
                } else if key_in(&self.keys.speed_more, key) {
                    self.action = ReplayAction::SpeedMore;
                } else if key_in(&self.keys.speed_less, key) {
                    self.action = ReplayAction::SpeedLess;
                } else if key_in(&self.keys.frame_next, key) {
                    self.action = ReplayAction::Next;
                    self.auto_play = false;
                } else if key_in(&self.keys.frame_prev, key) {
                    self.action = ReplayAction::Previous;
                    self.auto_play = false;
                } else if key_in(&self.keys.forward, key) {
                    self.action = ReplayAction::Forward;
                } else if key_in(&self.keys.backward, key) {
                    self.action = ReplayAction::Backward;
                }
            },
            Msg::Mouse { action, pos, .. } => {
                self.update_mouse(action, pos);
            },
            _ => {},
        }
        self.perform()
    }

    /// A tick handed back: when still playing at the frame it was asked
    /// for, step to the next frame; then as for any update.
    pub fn tick(&mut self, frame: usize) -> (r: Option<ReplayEffect>)
        requires
            old(self).wf(),
        ensures
            final(self).wf(),
            final(self).spec_keys() == old(self).spec_keys(),
            old(self).spec_help() ==> r is None && final(self).spec_fidx() == old(self).spec_fidx(),
            !old(self).spec_help() ==> {
                &&& r == final(self).next_tick()
                &&& final(self).spec_auto_play() == old(self).spec_auto_play()
                &&& (old(self).spec_auto_play() && frame == old(self).spec_fidx()) ==> (final(self).spec_fidx()
                    == old(self).spec_fidx() + 1 || final(self).spec_action() == ReplayAction::Idle)
                &&& !(old(self).spec_auto_play() && frame == old(self).spec_fidx()) ==> final(self).spec_fidx()
                    == old(self).spec_fidx() && r is None
            },
            old(self).spec_undo_len() == old(self).spec_fidx() ==> final(self).spec_undo_len() == final(self).spec_fidx(),
    {
        if self.help {
            return None;
        }
        self.action = ReplayAction::Idle;
        if self.auto_play && self.fidx == frame {
            self.action = ReplayAction::Next;
        }
        self.perform()
    }

    /// Draw the replay into `grid`: the help when it is shown, else the
    /// replay's own grid copied in.
    pub fn draw(&self, grid: &mut Grid)
        requires
            self.wf(),
    {
        if self.help {
            if let Some(pager) = &self.help_pager {
                let b = grid.bounds();
                let sc = pager.scroll();
                if b.min.x <= b.max.x && b.min.y <= b.max.y && b.max.x < 0x1000_0000 && b.max.y < 0x1000_0000
                    && sc.x <= 0x4000_0000 {
                    pager.draw(grid);
                    return;
                }
            }
        }
        let _ = grid.copy_from(&self.grid);
    }
}

/// Seeking forward never goes back.
proof fn lemma_seek_fwd(frames: Seq<Frame>, f: int, target: int)
    ensures
        seek_fwd(frames, f, target) >= f,
    decreases frames.len() - f,
{
    if !(f >= frames.len() || f < 1 || frame_time(frames, f - 1) >= target) {
        lemma_seek_fwd(frames, f + 1, target);
    }
}

/// Seeking backward never goes forward.
proof fn lemma_seek_bwd(frames: Seq<Frame>, f: int, target: int)
    ensures
        seek_bwd(frames, f, target) <= f,
    decreases f,
{
    if !(f <= 1 || f > frames.len() || frame_time(frames, f - 1) <= target) {
        lemma_seek_bwd(frames, f - 1, target);
    }
}

} // verus!
