//! The game's display model: keys and mouse clicks become moves and waits,
//! the help pager comes and goes, and the log, map and status line are
//! drawn.
use vstd::prelude::*;

use crate::cell::Cell;
use crate::geom::{Point, Range, pt, rg};
use crate::grid::{Grid, lemma_slice_small};
use crate::messages::{Key, Msg, MouseAction};
use crate::style::{AttrMask, Style};
use crate::ui::pager::{Pager, PagerAction, PagerConfig, PagerKeys, PagerStyle};
use crate::ui::styled_text::StyledText;
use crate::shamogu::colors::{BG, BG_LIT, FG, FG_DIM, FG_EMPH, monster_color};
use crate::shamogu::entity::{PLAYER_ID, INVALID_POS};
use crate::shamogu::game::{Game, live};
use crate::shamogu::gamemap::{GameMap, terrain_at, spec_in_map, MAP_WIDTH, MAP_HEIGHT};
use crate::shamogu::terrain::{passable, terrain_rune, UNKNOWN, WALL, TRANSLUCENT_WALL};
use crate::util::{chars_of, push_decimal, decimal};

verus! {

/// Screen width.
pub const UI_WIDTH: i32 = 80;

/// Screen height.
pub const UI_HEIGHT: i32 = 24;

/// The help screen's text.
fn help_text() -> (s: &'static str)
    ensures
        s@.len() < 1000,
{
    let s = "\
Movement:    arrows / hjkl / yubn (vi keys + diagonals)
Wait:        . or space
Examine:     x or mouse move
Help:        ? to show this screen
Quit:        Q or Ctrl+C\n\
\n\
Bump into monsters to attack them.\n\
Explore the cave and survive!";
    proof {
        reveal_strlit("\
Movement:    arrows / hjkl / yubn (vi keys + diagonals)
Wait:        . or space
Examine:     x or mouse move
Help:        ? to show this screen
Quit:        Q or Ctrl+C\n\
\n\
Bump into monsters to attack them.\n\
Explore the cave and survive!");
    }
    s
}

/// What the screen shows.
#[derive(Debug, Clone, Copy, PartialEq, Eq, Structural)]
pub enum Mode {
    Normal,
    GameOver,
    Help,
}

/// What the model asks of the application loop.
#[derive(Debug, Clone, Copy, PartialEq, Eq, Structural)]
pub enum ShamoguEffect {
    /// Stop the application.
    End,
}

/// The step a movement key asks for: arrows and `hjkl` orthogonally,
/// `yubn` diagonally.
pub open spec fn key_step(k: Key) -> Option<(i32, i32)> {
    match k {
        Key::ArrowUp => Some((0i32, -1i32)),
        Key::ArrowDown => Some((0i32, 1i32)),
        Key::ArrowLeft => Some((-1i32, 0i32)),
        Key::ArrowRight => Some((1i32, 0i32)),
        Key::Char(c) => if c == 'h' {
            Some((-1i32, 0i32))
        } else if c == 'j' {
            Some((0i32, 1i32))
        } else if c == 'k' {
            Some((0i32, -1i32))
        } else if c == 'l' {
            Some((1i32, 0i32))
        } else if c == 'y' {
            Some((-1i32, -1i32))
        } else if c == 'u' {
            Some((1i32, -1i32))
        } else if c == 'b' {
            Some((-1i32, 1i32))
        } else if c == 'n' {
            Some((1i32, 1i32))
        } else {
            None
        },
        _ => None,
    }
}

/// `key_step`, computed.
fn movement(k: Key) -> (s: Option<(i32, i32)>)
    ensures
        s == key_step(k),
{
    match k {
        Key::ArrowUp => Some((0, -1)),
        Key::ArrowDown => Some((0, 1)),
        Key::ArrowLeft => Some((-1, 0)),
        Key::ArrowRight => Some((1, 0)),
        Key::Char('h') => Some((-1, 0)),
        Key::Char('j') => Some((0, 1)),
        Key::Char('k') => Some((0, -1)),
        Key::Char('l') => Some((1, 0)),
        Key::Char('y') => Some((-1, -1)),
        Key::Char('u') => Some((1, -1)),
        Key::Char('b') => Some((-1, 1)),
        Key::Char('n') => Some((1, 1)),
        _ => None,
    }
}

/// The keys that wait a turn.
pub open spec fn is_wait_key(k: Key) -> bool {
    k == Key::Char('.') || k == Key::Char(' ')
}

/// The keys that quit the game.
pub open spec fn is_quit_key(k: Key) -> bool {
    k == Key::Char('Q') || k == Key::Escape
}

/// The keys that leave the game-over screen.
pub open spec fn is_leave_key(k: Key) -> bool {
    k == Key::Escape || k == Key::Char(' ') || k == Key::Char('Q')
}

/// Whether `msg` is a press of key `k`.
pub open spec fn key_msg(msg: Msg, k: Key) -> bool {
    msg matches Msg::KeyDown { key, .. } && key == k
}

/// Whether `msg` is a press of a quit key.
pub open spec fn quit_msg(msg: Msg) -> bool {
    msg matches Msg::KeyDown { key, .. } && is_quit_key(key)
}

/// Whether `msg` is a press of a key that leaves the game-over screen.
pub open spec fn leave_msg(msg: Msg) -> bool {
    msg matches Msg::KeyDown { key, .. } && is_leave_key(key)
}

/// The sign of `to - from`.
fn sign_toward(from: i32, to: i32) -> (s: i32)
    ensures
        s == if to > from { 1int } else if to < from { -1int } else { 0int },
{
    if to > from {
        1
    } else if to < from {
        -1
    } else {
        0
    }
}

/// The decimal notation of `n`, with a minus sign when negative.
pub open spec fn int_text(n: int) -> Seq<char> {
    if n < 0 {
        seq!['-'] + decimal((-n) as nat)
    } else {
        decimal(n as nat)
    }
}

/// Append the decimal notation of `n`, with a minus sign when negative.
fn push_int(out: &mut Vec<char>, n: i32)
    ensures
        final(out)@ == old(out)@ + int_text(n as int),
{
    if n < 0 {
        out.push('-');
        let m: i64 = -(n as i64);
        push_decimal(out, m as u32);
        proof {
            assert(old(out)@.push('-') + decimal((-n) as nat) =~= old(out)@ + (seq!['-'] + decimal((-n) as nat)));
        }
    } else {
        push_decimal(out, n as u32);
    }
}

/// Append the characters of `s`.
fn push_str(out: &mut Vec<char>, s: &str)
    ensures
        final(out)@ == old(out)@ + s@,
{
    let mut cs = chars_of(s);
    out.append(&mut cs);
}

/// Whether a map position has a known passable position among its eight
/// neighbours (a wall without one is inside the rock).
fn has_passable_neighbor(map: &GameMap, p: Point) -> (b: bool)
    requires
        -0x1000_0000 <= p.x <= 0x1000_0000,
        -0x1000_0000 <= p.y <= 0x1000_0000,
{
    let dirs: [(i32, i32); 8] = [(1, 0), (-1, 0), (0, 1), (0, -1), (1, 1), (1, -1), (-1, 1), (-1, -1)];
    let mut k: usize = 0;
    while k < 8
        invariant
            dirs@ == seq![(1i32, 0i32), (-1i32, 0i32), (0i32, 1i32), (0i32, -1i32), (1i32, 1i32), (1i32, -1i32), (-1i32, 1i32), (-1i32, -1i32)],
            -0x1000_0000 <= p.x <= 0x1000_0000,
            -0x1000_0000 <= p.y <= 0x1000_0000,
        decreases 8 - k,
    {
        let (dx, dy) = dirs[k];
        assert(-1 <= dx <= 1 && -1 <= dy <= 1);
        let np = p.shift(dx, dy);
        let known = match terrain_at(&map.known_terrain, np) {
            Some(c) => c,
            None => UNKNOWN(),
        };
        if passable(known) {
            return true;
        }
        k = k + 1;
    }
    false
}

/// A position of the map area that can be drawn at.
pub open spec fn drawable(p: Point) -> bool {
    -0x1000_0000 <= p.x <= 0x1000_0000 && -0x1000_0000 <= p.y <= 0x1000_0000
}

/// The Shamogu game's display model.
pub struct ShamoguModel {
    game: Game,
    mode: Mode,
    pager: Option<Pager>,
    small_vaults: String,
    big_vaults: String,
}

/// The step toward map position (`pos.x`, `pos.y - 2`) (the map is drawn
/// below two log lines) from the player at `pp`, one cell along each axis
/// where they differ; none outside the map's rows or at the player.
pub open spec fn click_step(pos: Point, pp: Point) -> Option<(i32, i32)> {
    let my = pos.y - 2;
    let dx = if pos.x > pp.x { 1int } else if pos.x < pp.x { -1int } else { 0int };
    let dy = if my > pp.y { 1int } else if my < pp.y { -1int } else { 0int };
    if 0 <= my < MAP_HEIGHT && (dx != 0 || dy != 0) {
        Some((dx as i32, dy as i32))
    } else {
        None
    }
}

/// The step of the player that a message asks for in the normal mode: a
/// movement key, or a main button click on the map.
pub open spec fn msg_step(msg: Msg, pp: Point) -> Option<(i32, i32)> {
    match msg {
        Msg::KeyDown { key, .. } => key_step(key),
        Msg::Mouse { action, pos, .. } => if action == MouseAction::Main {
            click_step(pos, pp)
        } else {
            None
        },
        _ => None,
    }
}

/// What a step of the player by (`dx`, `dy`) leaves, from `m0` to `m1`:
/// onto another actor it attacks and the turn passes; onto nothing off the
/// map nothing changes; otherwise the turn passes when it moved.
pub closed spec fn step_result(m0: ShamoguModel, m1: ShamoguModel, dx: int, dy: int) -> bool {
    let target = pt(m0.game.spec_pp().x + dx, m0.game.spec_pp().y + dy);
    &&& m1.wf()
    &&& m1.pager == m0.pager
    &&& m1.game.turn == m0.game.turn || m1.game.turn == m0.game.turn + 1
    &&& m1.mode == m0.mode || (m1.mode == Mode::GameOver && !live(m1.game.spec_player()))
    &&& match crate::shamogu::game::first_actor_at(m0.game.entities@, target, crate::shamogu::entity::FIRST_MAP_ID as int) {
        Some(id) if id != PLAYER_ID => m1.game.turn == if m0.game.turn < i32::MAX {
            m0.game.turn + 1
        } else {
            m0.game.turn as int
        },
        _ => !m0.game.map.terrain.has(target) ==> m1 == m0,
    }
}

impl ShamoguModel {
    /// The game is well formed, the player is on the map or nowhere, and
    /// there is a player once there are entities; the help pager, when
    /// there is one, can be drawn.
    pub closed spec fn wf(&self) -> bool {
        &&& self.game.wf()
        &&& (spec_in_map(self.game.spec_pp()) || self.game.spec_pp() == pt(-1, -1))
        &&& (self.game.entities@.len() == 0 || self.game.spec_player() is Some)
        &&& match self.pager {
            Some(p) => {
                &&& p.wf()
                &&& forall|reach: int| #[trigger] p.box_fits(reach)
                &&& forall|i: int| 0 <= i < p.spec_len() ==> (#[trigger] p.spec_lines()[i]).spec_text().len() < 1000
            },
            None => true,
        }
    }

    /// What the screen shows.
    pub closed spec fn spec_mode(&self) -> Mode {
        self.mode
    }

    /// The game.
    pub closed spec fn spec_game(&self) -> Game {
        self.game
    }

    /// The texts of the small and big vault templates the levels are
    /// generated from.
    pub closed spec fn spec_vault_texts(&self) -> (Seq<char>, Seq<char>) {
        (self.small_vaults@, self.big_vaults@)
    }

    /// Whether the help pager is open.
    pub closed spec fn spec_has_pager(&self) -> bool {
        self.pager is Some
    }

    /// A model of a fresh game, its levels generated from the given vault
    /// template files.
    pub fn new(small_vaults: String, big_vaults: String) -> (m: ShamoguModel)
        ensures
            m.wf(),
            m.spec_mode() == Mode::Normal,
            m.spec_game().entities@.len() == 0,
            m.spec_game().turn == 0,
            m.spec_vault_texts() == (small_vaults@, big_vaults@),
            !m.spec_has_pager(),
    {
        ShamoguModel { game: Game::new(), mode: Mode::Normal, pager: None, small_vaults, big_vaults }
    }

    /// The turn ends (unless the turn count is at its largest) and the game
    /// is over when the player is dead.
    fn play_turn(&mut self)
        requires
            old(self).wf(),
        ensures
            final(self).wf(),
            final(self).pager == old(self).pager,
            final(self).game.turn == if old(self).game.turn < i32::MAX { old(self).game.turn + 1 } else {
                old(self).game.turn as int
            },
            final(self).mode == if !live(final(self).game.spec_player()) { Mode::GameOver } else { old(self).mode },
    {
        if self.game.turn < i32::MAX {
            let ghost g0 = self.game;
            self.game.end_turn();
            proof {
                if g0.entities@.len() > 0 {
                    assert(crate::shamogu::game::turn_slot(
                        g0.entities@[PLAYER_ID as int],
                        self.game.entities@[PLAYER_ID as int],
                        PLAYER_ID as int,
                    ));
                }
            }
        }
        self.check_death();
    }

    /// The game is over when the player is dead.
    fn check_death(&mut self)
        ensures
            final(self).game == old(self).game,
            final(self).pager == old(self).pager,
            final(self).mode == if !live(old(self).game.spec_player()) { Mode::GameOver } else { old(self).mode },
    {
        if !self.game.player_alive() {
            self.mode = Mode::GameOver;
        }
    }

    /// Move the player by one step (`dx`, `dy` in -1..=1); a turn passes
    /// when it moved or attacked.
    fn step(&mut self, dx: i32, dy: i32)
        requires
            old(self).wf(),
            -1 <= dx <= 1,
            -1 <= dy <= 1,
        ensures
            step_result(*old(self), *final(self), dx as int, dy as int),
    {
        proof {
            if self.game.entities@.len() == 0 {
                assert(crate::shamogu::game::first_actor_at(
                    self.game.entities@,
                    pt(self.game.spec_pp().x + dx, self.game.spec_pp().y + dy),
                    crate::shamogu::entity::FIRST_MAP_ID as int,
                ) is None);
            }
        }
        let ghost g0 = self.game;
        let _n = self.game.entities.len();
        let moved = self.game.move_player(dx, dy);
        proof {
            let target = pt(g0.spec_pp().x + dx, g0.spec_pp().y + dy);
            match crate::shamogu::game::first_actor_at(g0.entities@, target, crate::shamogu::entity::FIRST_MAP_ID as int) {
                Some(id) => {
                    if id != PLAYER_ID {
                        crate::shamogu::game::lemma_first_actor_at_live(g0.entities@, target,
                            crate::shamogu::entity::FIRST_MAP_ID as int);
                        assert(self.game.spec_player() == g0.spec_player());
                    }
                },
                None => {},
            }
        }
        if moved {
            self.play_turn();
        }
    }

    /// Show the help in a pager.
    fn show_help(&mut self)
        requires
            old(self).wf(),
        ensures
            final(self).wf(),
            final(self).game == old(self).game,
            final(self).mode == Mode::Help,
            final(self).pager is Some,
    {
        let text = help_text();
        let stt = StyledText::text(text);
        let grid = Grid::new(UI_WIDTH, UI_HEIGHT);
        let pager = Pager::new(
            PagerConfig { grid, content: stt, keys: PagerKeys::default(), box_: None, style: PagerStyle::default() },
        );
        self.pager = Some(pager);
        self.mode = Mode::Help;
    }

    /// A key in the normal mode: a movement key steps, a wait key passes
    /// the turn, `?` shows the help, `Q` or escape quits.
    fn handle_key(&mut self, key: Key) -> (e: Option<ShamoguEffect>)
        requires
            old(self).wf(),
        ensures
            final(self).wf(),
            e == if is_quit_key(key) { Some(ShamoguEffect::End) } else { None::<ShamoguEffect> },
            key == Key::Char('?') ==> final(self).mode == Mode::Help && final(self).game == old(self).game,
            is_wait_key(key) ==> final(self).game.turn == if old(self).game.turn < i32::MAX {
                old(self).game.turn + 1
            } else {
                old(self).game.turn as int
            },
            key_step(key) is Some ==> final(self).game.turn == old(self).game.turn || final(self).game.turn
                == old(self).game.turn + 1,
            key_step(key) is None && !is_wait_key(key) && key != Key::Char('?') ==> *final(self) == *old(self),
            key_step(key) matches Some((dx, dy)) ==> step_result(*old(self), *final(self), dx as int, dy as int),
            key != Key::Char('?') ==> final(self).mode == old(self).mode || (final(self).mode == Mode::GameOver
                && !live(final(self).game.spec_player())),
    {
        match movement(key) {
            Some((dx, dy)) => {
                self.step(dx, dy);
                return None;
            },
            None => {},
        }
        if key == Key::Char('.') || key == Key::Char(' ') {
            self.play_turn();
            return None;
        }
        if key == Key::Char('?') {
            self.show_help();
            return None;
        }
        if key == Key::Char('Q') || key == Key::Escape {
            return Some(ShamoguEffect::End);
        }
        None
    }

    /// A message in the normal mode: keys as `handle_key` says; a main
    /// button click on the map steps the player toward the clicked
    /// position.
    fn update_normal(&mut self, msg: Msg) -> (e: Option<ShamoguEffect>)
        requires
            old(self).wf(),
        ensures
            final(self).wf(),
            e == if quit_msg(msg) { Some(ShamoguEffect::End) } else { None::<ShamoguEffect> },
            key_msg(msg, Key::Char('?')) ==> final(self).mode == Mode::Help && final(self).game == old(self).game,
            !key_msg(msg, Key::Char('?')) ==> final(self).mode == old(self).mode
                || (final(self).mode == Mode::GameOver && !live(final(self).game.spec_player())),
            final(self).game.turn == old(self).game.turn || final(self).game.turn == old(self).game.turn + 1,
            msg_step(msg, old(self).game.spec_pp()) matches Some((dx, dy)) ==> step_result(
                *old(self),
                *final(self),
                dx as int,
                dy as int,
            ),
    {
        match msg {
            Msg::KeyDown { key, .. } => self.handle_key(key),
            Msg::Mouse { action, pos, .. } => {
                if action == MouseAction::Main {
                    let my: i64 = pos.y as i64 - 2;
                    if 0 <= my && my < MAP_HEIGHT as i64 {
                        let pp = self.game.pp();
                        let dx = sign_toward(pp.x, pos.x);
                        let dy = sign_toward(pp.y, my as i32);
                        if dx != 0 || dy != 0 {
                            self.step(dx, dy);
                        }
                    }
                }
                None
            },
            _ => None,
        }
    }

    /// A message on the game-over screen: a leave key quits.
    fn update_game_over(&self, msg: Msg) -> (e: Option<ShamoguEffect>)
        ensures
            e == if leave_msg(msg) { Some(ShamoguEffect::End) } else { None::<ShamoguEffect> },
    {
        match msg {
            Msg::KeyDown { key, .. } => {
                if key == Key::Escape || key == Key::Char(' ') || key == Key::Char('Q') {
                    Some(ShamoguEffect::End)
                } else {
                    None
                }
            },
            _ => None,
        }
    }

    /// A message while the help is shown goes to its pager; the help
    /// closes when the pager quits.
    fn update_help(&mut self, msg: Msg)
        requires
            old(self).wf(),
        ensures
            final(self).wf(),
            final(self).game == old(self).game,
            final(self).mode == old(self).mode || (final(self).mode == Mode::Normal && final(self).pager is None),
            match old(self).pager {
                Some(p) => if p.spec_scroll_x() <= i32::MAX - 8 && p.quits_on(msg) {
                    final(self).mode == Mode::Normal && final(self).pager is None
                } else {
                    final(self).mode == old(self).mode && final(self).pager is Some
                },
                None => *final(self) == *old(self),
            },
    {
        let taken = self.pager.take();
        if let Some(mut pager) = taken {
            let sc = pager.scroll();
            if sc.x > i32::MAX - 8 {
                self.pager = Some(pager);
                return;
            }
            let action = pager.update(msg);
            if action == PagerAction::Quit {
                self.mode = Mode::Normal;
                self.pager = None;
            } else {
                self.pager = Some(pager);
            }
        }
    }

    /// Process a message: `Init` starts a game on a generated level (see
    /// [`Game::init`]), and ends the application when no level could be
    /// generated; other messages go by the mode: the normal mode plays,
    /// the game-over screen waits for a leave key, the help pages.
    pub fn update(&mut self, msg: Msg) -> (e: Option<ShamoguEffect>)
        requires
            old(self).wf(),
        ensures
            final(self).wf(),
            msg is Init ==> final(self).spec_mode() == old(self).spec_mode() && (e is None || e == Some(
                ShamoguEffect::End,
            )),
            msg is Init && e is None ==> live(final(self).spec_game().spec_player()),
            msg is Init && e is Some ==> final(self).spec_game().entities == old(self).spec_game().entities,
            !(msg is Init) && old(self).spec_mode() == Mode::GameOver ==> {
                &&& e == if leave_msg(msg) { Some(ShamoguEffect::End) } else { None::<ShamoguEffect> }
                &&& final(self).spec_mode() == Mode::GameOver
                &&& final(self).spec_game() == old(self).spec_game()
            },
            !(msg is Init) && old(self).spec_mode() == Mode::Help ==> {
                &&& e is None
                &&& final(self).spec_game() == old(self).spec_game()
                &&& final(self).spec_mode() != Mode::GameOver
            },
            !(msg is Init) && old(self).spec_mode() == Mode::Normal ==> {
                &&& e == if quit_msg(msg) { Some(ShamoguEffect::End) } else { None::<ShamoguEffect> }
                &&& key_msg(msg, Key::Char('?')) ==> final(self).spec_mode() == Mode::Help
                    && final(self).spec_game() == old(self).spec_game()
                &&& final(self).spec_mode() == Mode::GameOver ==> !live(final(self).spec_game().spec_player())
                &&& final(self).spec_game().turn == old(self).spec_game().turn || final(self).spec_game().turn
                    == old(self).spec_game().turn + 1
                &&& msg_step(msg, old(self).spec_game().spec_pp()) matches Some((dx, dy)) ==> step_result(
                    *old(self),
                    *final(self),
                    dx as int,
                    dy as int,
                )
            },
    {
        match msg {
            Msg::Init => {
                if self.game.init(self.small_vaults.as_str(), self.big_vaults.as_str()) {
                    None
                } else {
                    Some(ShamoguEffect::End)
                }
            },
            _ => match self.mode {
                Mode::Normal => self.update_normal(msg),
                Mode::GameOver => self.update_game_over(msg),
                Mode::Help => {
                    self.update_help(msg);
                    None
                },
            },
        }
    }

    /// Draw the log's two most recent lines at the top.
    fn draw_log(&self, grid: &Grid)
        requires
            self.wf(),
            grid@.max.x < 0x1000_0000,
            grid@.max.y < 0x1000_0000,
            grid@.spec_width() >= 0,
            grid@.spec_height() >= 0,
    {
        let b = grid.bounds();
        let r = Range::new(0, 0, UI_WIDTH, 2);
        proof {
            lemma_slice_small(b, r);
        }
        let log_area = grid.slice(r);
        let lines = self.game.log.recent_lines(UI_WIDTH as usize - 1, 2);
        let style = Style::new().with_fg(FG_DIM());
        let mut y: usize = 0;
        while y < lines.len() && y < 0x1000
            invariant
                log_area@.min.x >= 0,
                log_area@.min.y >= 0,
                log_area@.min.x < 0x2000_0000,
                log_area@.min.y < 0x2000_0000,
            decreases lines@.len() - y,
        {
            let cs = chars_of(lines[y].as_str());
            let mut x: usize = 0;
            while x < cs.len() && x < UI_WIDTH as usize
                invariant
                    y < 0x1000,
                    log_area@.min.x >= 0,
                    log_area@.min.y >= 0,
                    log_area@.min.x < 0x2000_0000,
                    log_area@.min.y < 0x2000_0000,
                decreases cs@.len() - x,
            {
                log_area.set(Point::new(x as i32, y as i32), Cell::blank().with_char(cs[x]).with_style(style));
                x = x + 1;
            }
            y = y + 1;
        }
    }

    /// Draw the known terrain (lit within view, dim outside) and the alive
    /// actors in view or where they were last seen, below the log.
    fn draw_map(&self, grid: &Grid)
        requires
            self.wf(),
            grid@.max.x < 0x1000_0000,
            grid@.max.y < 0x1000_0000,
            grid@.spec_width() >= 0,
            grid@.spec_height() >= 0,
    {
        let b = grid.bounds();
        let r = Range::new(0, 2, UI_WIDTH, 2 + MAP_HEIGHT);
        proof {
            lemma_slice_small(b, r);
        }
        let map_area = grid.slice(r);
        let sz = self.game.map.terrain.size();
        let mut y: i32 = 0;
        while y < sz.y
            invariant
                self.wf(),
                sz.y == MAP_HEIGHT,
                sz.x == MAP_WIDTH,
                0 <= y <= sz.y,
                map_area@.min.x >= 0,
                map_area@.min.y >= 0,
                map_area@.min.x < 0x2000_0000,
                map_area@.min.y < 0x2000_0000,
            decreases sz.y - y,
        {
            let mut x: i32 = 0;
            while x < sz.x
                invariant
                    self.wf(),
                    sz.y == MAP_HEIGHT,
                    sz.x == MAP_WIDTH,
                    0 <= y < sz.y,
                    0 <= x <= sz.x,
                    map_area@.min.x >= 0,
                    map_area@.min.y >= 0,
                    map_area@.min.x < 0x2000_0000,
                    map_area@.min.y < 0x2000_0000,
                decreases sz.x - x,
            {
                let p = Point::new(x, y);
                x = x + 1;
                let known = match terrain_at(&self.game.map.known_terrain, p) {
                    Some(c) => c,
                    None => UNKNOWN(),
                };
                if known == UNKNOWN() {
                    continue;
                }
                let in_fov = self.game.in_fov(p);
                let ch = if known == WALL() && !has_passable_neighbor(&self.game.map, p) {
                    ' '
                } else {
                    terrain_rune(known)
                };
                let (fg, bg) = if in_fov {
                    (FG(), BG_LIT())
                } else {
                    (FG_DIM(), BG())
                };
                let attrs = if known == WALL() || known == TRANSLUCENT_WALL() {
                    AttrMask::BOLD()
                } else {
                    AttrMask::NONE()
                };
                let style = Style { fg, bg, attrs };
                map_area.set(p, Cell::blank().with_char(ch).with_style(style));
            }
            y = y + 1;
        }
        let actors = self.game.alive_actors();
        let mut draw_list: Vec<(Point, char, Style)> = Vec::new();
        let mut k: usize = 0;
        while k < actors.len()
            invariant
                self.wf(),
                forall|j: int| 0 <= j < draw_list@.len() ==> drawable(#[trigger] draw_list@[j].0),
            decreases actors@.len() - k,
        {
            let (id, entity) = actors[k];
            k = k + 1;
            let pos = if id == PLAYER_ID || self.game.in_fov(entity.pos) {
                entity.pos
            } else if entity.known_pos != INVALID_POS() {
                entity.known_pos
            } else {
                continue;
            };
            let fg = if id == PLAYER_ID {
                FG_EMPH()
            } else if self.game.in_fov(entity.pos) {
                monster_color(entity.ch)
            } else {
                FG_DIM()
            };
            let bg = if self.game.in_fov(pos) {
                BG_LIT()
            } else {
                BG()
            };
            if -0x1000_0000 <= pos.x && pos.x <= 0x1000_0000 && -0x1000_0000 <= pos.y && pos.y <= 0x1000_0000 {
                draw_list.push((pos, entity.ch, Style { fg, bg, attrs: AttrMask::NONE() }));
            }
        }
        let mut k: usize = 0;
        while k < draw_list.len()
            invariant
                forall|j: int| 0 <= j < draw_list@.len() ==> drawable(#[trigger] draw_list@[j].0),
                map_area@.min.x >= 0,
                map_area@.min.y >= 0,
                map_area@.min.x < 0x2000_0000,
                map_area@.min.y < 0x2000_0000,
            decreases draw_list@.len() - k,
        {
            let (pos, ch, style) = draw_list[k];
            assert(drawable(draw_list@[k as int].0));
            map_area.set(pos, Cell::blank().with_char(ch).with_style(style));
            k = k + 1;
        }
    }

    /// Draw the status line at the bottom: level, turn, the player's
    /// health, attack and defense, and the game-over notice.
    fn draw_status(&self, grid: &Grid)
        requires
            self.wf(),
            grid@.max.x < 0x1000_0000,
            grid@.max.y < 0x1000_0000,
            grid@.spec_width() >= 0,
            grid@.spec_height() >= 0,
    {
        let b = grid.bounds();
        let r = Range::new(0, UI_HEIGHT - 1, UI_WIDTH, UI_HEIGHT);
        proof {
            lemma_slice_small(b, r);
        }
        let status_area = grid.slice(r);
        let mut status: Vec<char> = Vec::new();
        push_str(&mut status, " L:");
        push_int(&mut status, self.game.map.level);
        push_str(&mut status, " T:");
        push_int(&mut status, self.game.turn);
        push_str(&mut status, " ");
        match self.game.player_actor() {
            Some(actor) => {
                push_str(&mut status, "HP:");
                push_int(&mut status, actor.hp);
                push_str(&mut status, "/");
                push_int(&mut status, actor.max_hp);
                push_str(&mut status, " A:");
                push_int(&mut status, actor.attack);
                push_str(&mut status, " D:");
                push_int(&mut status, actor.defense);
                push_str(&mut status, " ");
            },
            None => {},
        }
        if self.mode == Mode::GameOver {
            push_str(&mut status, "*** DEAD *** Press Q/ESC to quit");
        }
        let style = Style { fg: FG_EMPH(), bg: BG_LIT(), attrs: AttrMask::NONE() };
        let mut x: i32 = 0;
        while x < UI_WIDTH
            invariant
                0 <= x <= UI_WIDTH,
                status_area@.min.x >= 0,
                status_area@.min.y >= 0,
                status_area@.min.x < 0x2000_0000,
                status_area@.min.y < 0x2000_0000,
            decreases UI_WIDTH - x,
        {
            status_area.set(Point::new(x, 0), Cell::blank().with_char(' ').with_style(style));
            x = x + 1;
        }
        let mut x: usize = 0;
        while x < status.len() && x < UI_WIDTH as usize
            invariant
                status_area@.min.x >= 0,
                status_area@.min.y >= 0,
                status_area@.min.x < 0x2000_0000,
                status_area@.min.y < 0x2000_0000,
            decreases status@.len() - x,
        {
            status_area.set(Point::new(x as i32, 0), Cell::blank().with_char(status[x]).with_style(style));
            x = x + 1;
        }
    }

    /// Draw the screen: the help pager in help mode, else the log, the map
    /// and the status line. What lands in the grid is the grid's content,
    /// which its contract does not state.
    pub fn draw(&self, grid: &Grid)
        requires
            self.wf(),
            grid@.max.x < 0x1000_0000,
            grid@.max.y < 0x1000_0000,
            grid@.spec_width() >= 0,
            grid@.spec_height() >= 0,
    {
        grid.fill(Cell::blank());
        if self.mode == Mode::Help {
            if let Some(pager) = &self.pager {
                let b = grid.bounds();
                let r = Range::new(0, 0, UI_WIDTH, UI_HEIGHT);
                proof {
                    lemma_slice_small(b, r);
                }
                let area = grid.slice(r);
                let sc = pager.scroll();
                if sc.x <= 0x4000_0000 {
                    pager.draw(&area);
                }
            }
        } else {
            self.draw_log(grid);
            self.draw_map(grid);
            self.draw_status(grid);
        }
    }
}

} // verus!
