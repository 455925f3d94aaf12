//! The core game state, apart from its display: entities, map, turn count,
//! message log and random generator, and the rules that move them.
use vstd::prelude::*;

use rand::rngs::StdRng;

use crate::geom::{Point, Range, pt, rg};
use crate::paths::pathrange::PathRange;
use crate::geom::fits_i32;
use crate::shamogu::combat::{compute_damage, MAX_ATTACK_DAMAGE};
use crate::paths::distance::spec_manhattan;
use crate::rl::mapgen::{random_below, random_index, os_seeded_rng};
use crate::rl::grid::Grid as RlGrid;
use crate::shamogu::entity::{
    Entity, Actor, Behavior, Mindstate, MonsterKind, Role, Id, FIRST_MAP_ID, PLAYER_ID, INVENTORY_SIZE, INVALID_POS,
    spec_alive, actor_of, monster_stats, monster_data, early_monsters, mid_monsters,
};
use crate::rl::fov::FOV;
use crate::shamogu::fov_::MapLighter;
use crate::shamogu::gamemap::{GameMap, MonsterPather, terrain_at, spec_in_map, MAP_WIDTH, MAP_HEIGHT, MAX_FOV_RANGE};
use crate::shamogu::terrain::{WALL, RUBBLE, FLOOR, UNKNOWN};
use crate::shamogu::levelgen::generate_map;
use crate::shamogu::log::{GameLog, LogStyle, upper_first};
use crate::util::{chars_of, string_of, push_decimal, decimal};

verus! {

/// The range of map positions.
pub open spec fn map_range() -> Range {
    rg(0, 0, MAP_WIDTH as int, MAP_HEIGHT as int)
}

/// An entity slot holding an alive actor.
pub open spec fn live(slot: Option<Entity>) -> bool {
    slot matches Some(e) && spec_alive(e)
}

/// The ids in `lo..hi` of the slots holding alive actors, in order.
pub open spec fn live_ids(es: Seq<Option<Entity>>, lo: int, hi: int) -> Seq<usize>
    decreases hi - lo,
{
    if hi <= lo {
        seq![]
    } else {
        live_ids(es, lo, hi - 1) + if live(es[hi - 1]) {
            seq![(hi - 1) as usize]
        } else {
            seq![]
        }
    }
}

/// The first id from `lo` on whose slot holds an alive actor at `pos`.
pub open spec fn first_actor_at(es: Seq<Option<Entity>>, pos: Point, lo: int) -> Option<usize>
    decreases es.len() - lo,
{
    if lo < 0 || lo >= es.len() {
        None
    } else if live(es[lo]) && es[lo]->0.pos == pos {
        Some(lo as usize)
    } else {
        first_actor_at(es, pos, lo + 1)
    }
}

/// A slot whose actor, if any, has a non-negative attack stat (damage is
/// rolled between zero and it).
pub open spec fn attack_ok(slot: Option<Entity>) -> bool {
    slot matches Some(e) ==> actor_of(e).attack >= 0
}

/// Room in the log for `k + 1` more messages: the last entry's repetition
/// count can grow that much.
pub open spec fn log_room(l: GameLog, k: int) -> bool {
    l.spec_entries().len() > 0 ==> l.spec_entries().last().dups < i32::MAX - k
}

/// The log's last entry holds text `t` (its first letter in uppercase) in
/// style `style`.
pub open spec fn last_logged(l: GameLog, t: Seq<char>, style: LogStyle) -> bool {
    &&& l.spec_entries().len() > 0
    &&& l.spec_entries().last().text@ == upper_first(t)
    &&& l.spec_entries().last().style == style
}

/// The message of a hit.
pub open spec fn hit_message(attacker: Seq<char>, defender: Seq<char>, dmg: nat) -> Seq<char> {
    attacker + " hits "@ + defender + " for "@ + decimal(dmg) + " damage."@
}

/// The message of a miss.
pub open spec fn miss_message(attacker: Seq<char>, defender: Seq<char>) -> Seq<char> {
    attacker + " attacks "@ + defender + " but misses."@
}

/// The message of a death.
pub open spec fn death_message(id: Id, name: Seq<char>) -> Seq<char> {
    if id == PLAYER_ID {
        "You die..."@
    } else {
        name + " dies."@
    }
}

/// The style of the messages of damage dealt to `id`.
pub open spec fn hurt_style(id: Id) -> LogStyle {
    if id == PLAYER_ID {
        LogStyle::HurtPlayer
    } else {
        LogStyle::HurtMonster
    }
}

/// Entity `e` moved to `p`.
pub open spec fn moved(e: Entity, p: Point) -> Entity {
    Entity { pos: p, ..e }
}

/// Entity `e` with health `hp`.
pub open spec fn with_hp(e: Entity, hp: i32) -> Entity {
    Entity { role: Role::Actor(Actor { hp, ..actor_of(e) }), ..e }
}

/// What an attack of `att` on `def` leaves, from `g0` to `g1`: the
/// defender loses between zero and the attack stat (three at most) of
/// health, a killed monster leaves the map, nothing else of the entities,
/// map, paths or turn changes, and, with room in the log, the last message
/// tells the miss, the hit or the death.
pub open spec fn attack_outcome(g0: Game, g1: Game, att: Id, def: Id) -> bool {
    let a0 = g0.entities@[att as int]->0;
    let d0 = g0.entities@[def as int]->0;
    let hp0 = actor_of(d0).hp;
    let hp1 = actor_of(g1.entities@[def as int]->0).hp;
    let dmg = hp0 - hp1;
    let killed = dmg > 0 && hp1 <= 0;
    let d1 = with_hp(if killed && def != PLAYER_ID { moved(d0, pt(-1, -1)) } else { d0 }, hp1);
    &&& g1.entities@ == g0.entities@.update(def as int, Some(d1))
    &&& 0 <= dmg <= actor_of(a0).attack
    &&& dmg <= MAX_ATTACK_DAMAGE
    &&& g1.map == g0.map
    &&& g1.pr == g0.pr
    &&& g1.turn == g0.turn
    &&& log_room(g0.log, 1) ==> if killed {
        last_logged(g1.log, death_message(def, d0.name@), hurt_style(def))
    } else if dmg > 0 {
        last_logged(g1.log, hit_message(a0.name@, d0.name@, dmg as nat), hurt_style(def))
    } else {
        last_logged(g1.log, miss_message(a0.name@, d0.name@), LogStyle::Normal)
    }
}

/// Append the characters of `s`.
fn append_str(out: &mut Vec<char>, s: &str)
    ensures
        final(out)@ == old(out)@ + s@,
{
    let mut cs = chars_of(s);
    out.append(&mut cs);
}

/// The message of a hit, as text.
fn hit_text(attacker: &str, defender: &str, dmg: i32) -> (t: String)
    requires
        dmg >= 0,
    ensures
        t@ == hit_message(attacker@, defender@, dmg as nat),
{
    let mut v = chars_of(attacker);
    append_str(&mut v, " hits ");
    append_str(&mut v, defender);
    append_str(&mut v, " for ");
    push_decimal(&mut v, dmg as u32);
    append_str(&mut v, " damage.");
    string_of(&v)
}

/// The message of a miss, as text.
fn miss_text(attacker: &str, defender: &str) -> (t: String)
    ensures
        t@ == miss_message(attacker@, defender@),
{
    let mut v = chars_of(attacker);
    append_str(&mut v, " attacks ");
    append_str(&mut v, defender);
    append_str(&mut v, " but misses.");
    string_of(&v)
}

/// A player position from which the field of vision's range can be
/// computed.
pub open spec fn pp_ok(p: Point) -> bool {
    p.x > i32::MIN + MAP_WIDTH && p.y > i32::MIN + MAP_HEIGHT
}

/// The range of the field of vision around the player at `pp`: the sight
/// square intersected with the map shifted by the player's position.
pub open spec fn fov_range_at(pp: Point) -> Range {
    rg(-MAX_FOV_RANGE as int, -MAX_FOV_RANGE as int, MAX_FOV_RANGE + 1, MAX_FOV_RANGE + 1).spec_intersect(
        rg(-pp.x, -pp.y, MAP_WIDTH - pp.x, MAP_HEIGHT - pp.y),
    )
}

/// What a monster's entity knows after the field of vision `fov` is
/// computed: an alive one in sight within range is seen where it stands; an
/// alive one out of sight whose last known position is in sight is no
/// longer known anywhere.
pub open spec fn knowledge(e: Entity, fov: FOV) -> Entity {
    if !spec_alive(e) {
        e
    } else if fov.is_visible(e.pos) {
        if fov.cost_at(e.pos) matches Some(c) && c <= MAX_FOV_RANGE {
            Entity { known_pos: e.pos, seen: true, ..e }
        } else {
            e
        }
    } else if fov.is_visible(e.known_pos) {
        Entity { known_pos: pt(-1, -1), ..e }
    } else {
        e
    }
}

/// A slot after the field of vision `fov` is computed.
pub open spec fn known_slot(slot: Option<Entity>, fov: FOV) -> Option<Entity> {
    match slot {
        Some(e) => Some(knowledge(e, fov)),
        None => None,
    }
}

/// Entity `e` with its monster mind set to `state` and `target` (nothing
/// without a mind).
pub open spec fn with_mind(e: Entity, state: Mindstate, target: Point) -> Entity {
    let a = actor_of(e);
    match a.behavior {
        Some(b) => Entity {
            role: Role::Actor(Actor { behavior: Some(Behavior { state, target, ..b }), ..a }),
            ..e
        },
        None => e,
    }
}

/// Whether slot `s` holds an alive actor with a mind.
pub open spec fn has_mind(s: Option<Entity>) -> bool {
    live(s) && actor_of(s->0).behavior is Some
}

/// What a round of monster turns leaves of the entity in slot `i`: names,
/// looks, stats, what it knows and the fixed parts of its mind stay; the
/// player stays put and only loses health; a monster keeps its health and
/// stays or moves onto the map.
pub open spec fn monster_round_slot(s0: Option<Entity>, s1: Option<Entity>, i: int) -> bool {
    match (s0, s1) {
        (Some(e0), Some(e1)) => {
            let a0 = actor_of(e0);
            let a1 = actor_of(e1);
            &&& e1.name == e0.name
            &&& e1.ch == e0.ch
            &&& e1.known_pos == e0.known_pos
            &&& e1.seen == e0.seen
            &&& a1.max_hp == a0.max_hp
            &&& a1.attack == a0.attack
            &&& a1.defense == a0.defense
            &&& match (a0.behavior, a1.behavior) {
                (Some(b0), Some(b1)) => b1.kind == b0.kind && b1.guard == b0.guard && b1.path == b0.path,
                (None, None) => true,
                _ => false,
            }
            &&& if i == PLAYER_ID {
                e1.pos == e0.pos && a1.hp <= a0.hp
            } else {
                a1.hp == a0.hp && (e1.pos == e0.pos || spec_in_map(e1.pos))
            }
        },
        (None, None) => true,
        _ => false,
    }
}

/// The round's relation holds of every slot.
pub open spec fn round(g0: Seq<Option<Entity>>, g1: Seq<Option<Entity>>) -> bool {
    &&& g1.len() == g0.len()
    &&& forall|i: int| 0 <= i < g0.len() ==> monster_round_slot(g0[i], #[trigger] g1[i], i)
}

/// A monster fresh from one of the first five spawn points: away from the
/// player at `pp`, on the map, wandering with no path, target or guard
/// post, at the full health of its kind, with the name, look and stats of
/// its kind's template.
pub open spec fn fresh_monster(e: Entity, spawns: Seq<Point>, pp: Point) -> bool {
    let a = actor_of(e);
    &&& spawns.subrange(0, if spawns.len() < 5 { spawns.len() as int } else { 5 }).contains(e.pos)
    &&& e.pos != pp
    &&& spec_in_map(e.pos)
    &&& a.max_hp == a.hp
    &&& a.behavior matches Some(b) && {
        &&& b.path@.len() == 0
        &&& b.target == pt(-1, -1)
        &&& b.guard == pt(-1, -1)
        &&& b.state == Mindstate::Wandering
        &&& (e.name@, e.ch, a.attack as int, a.defense as int, a.hp as int) == monster_stats(b.kind)
    }
}

/// A slot holding a monster on the map, away from the player at `pp`.
pub open spec fn placed_slot(slot: Option<Entity>, pp: Point) -> bool {
    slot matches Some(e) && spec_in_map(e.pos) && e.pos != pp
}

/// A slot holding a fresh monster.
pub open spec fn fresh_slot(slot: Option<Entity>, spawns: Seq<Point>, pp: Point) -> bool {
    slot matches Some(e) && fresh_monster(e, spawns, pp)
}

/// What a turn leaves of the entity in slot `i`: as a round of monster
/// turns, save what the monsters know.
pub open spec fn turn_slot(s0: Option<Entity>, s1: Option<Entity>, i: int) -> bool {
    match (s0, s1) {
        (Some(e0), Some(e1)) => monster_round_slot(
            Some(e0),
            Some(Entity { known_pos: e0.known_pos, seen: e0.seen, ..e1 }),
            i,
        ) && (i <= PLAYER_ID ==> e1.known_pos == e0.known_pos && e1.seen == e0.seen),
        (None, None) => true,
        _ => false,
    }
}

/// The Manhattan distance, computed without overflow.
fn distance(a: Point, b: Point) -> (d: i64)
    ensures
        d == spec_manhattan(a, b),
{
    let dx: i64 = a.x as i64 - b.x as i64;
    let dy: i64 = a.y as i64 - b.y as i64;
    let ax: i64 = if dx < 0 { -dx } else { dx };
    let ay: i64 = if dy < 0 { -dy } else { dy };
    ax + ay
}

/// The sign of `to - from`: -1, 0 or 1.
fn step_toward(from: i32, to: i32) -> (s: i32)
    ensures
        s == if to > from { 1int } else if to < from { -1int } else { 0int },
{
    if to > from {
        1
    } else if to < from {
        -1
    } else {
        0
    }
}

/// Core game state (separate from the display model).
pub struct Game {
    pub entities: Vec<Option<Entity>>,
    pub map: GameMap,
    pub pr: PathRange,
    pub turn: i32,
    pub log: GameLog,
    pub rng: StdRng,
}

impl Game {
    /// The map grids and caches have the map's size, and every actor's
    /// attack stat is non-negative.
    pub open spec fn wf(&self) -> bool {
        &&& self.map.terrain@ == map_range()
        &&& self.map.known_terrain@ == map_range()
        &&& self.map.fov.wf()
        &&& self.pr.wf()
        &&& self.pr.spec_range() == map_range()
        &&& forall|i: int| 0 <= i < self.entities@.len() ==> attack_ok(#[trigger] self.entities@[i])
    }

    /// The player's slot, `None` when it is empty or missing.
    pub open spec fn spec_player(&self) -> Option<Entity> {
        if PLAYER_ID < self.entities@.len() {
            self.entities@[PLAYER_ID as int]
        } else {
            None
        }
    }

    /// The player's position, the invalid position without a player.
    pub open spec fn spec_pp(&self) -> Point {
        match self.spec_player() {
            Some(e) => e.pos,
            None => pt(-1, -1),
        }
    }

    /// A fresh game: no entities, an empty first level, turn zero, an
    /// empty log, and a generator seeded by the system.
    pub fn new() -> (g: Game)
        ensures
            g.wf(),
            g.entities@.len() == 0,
            g.turn == 0,
            g.log.spec_entries().len() == 0,
            g.map.fov_points@.len() == 0,
            g.map.waypoints@.len() == 0,
            g.map.level == 1,
    {
        let map = GameMap::new();
        let map_rng = Range::new(0, 0, MAP_WIDTH, MAP_HEIGHT);
        assert(map_rng.spec_len() == 80 * 21);
        let pr = PathRange::new(map_rng);
        Game { entities: Vec::new(), map, pr, turn: 0, log: GameLog::new(), rng: os_seeded_rng() }
    }

    /// The player entity.
    pub fn player(&self) -> (r: Option<&Entity>)
        ensures
            r is Some <==> self.spec_player() is Some,
            r matches Some(e) ==> self.spec_player() == Some(*e),
    {
        if PLAYER_ID < self.entities.len() {
            match &self.entities[PLAYER_ID] {
                Some(e) => Some(e),
                None => None,
            }
        } else {
            None
        }
    }

    /// The player position.
    pub fn pp(&self) -> (p: Point)
        ensures
            p == self.spec_pp(),
    {
        match self.player() {
            Some(e) => e.pos,
            None => INVALID_POS(),
        }
    }

    /// The player's actor component.
    pub fn player_actor(&self) -> (r: Option<&Actor>)
        ensures
            r is Some <==> self.spec_player() is Some,
            r matches Some(a) ==> *a == actor_of(self.spec_player()->0),
    {
        match self.player() {
            Some(e) => e.actor(),
            None => None,
        }
    }

    /// Whether the player is alive.
    pub fn player_alive(&self) -> (b: bool)
        ensures
            b == live(self.spec_player()),
    {
        match self.player() {
            Some(e) => e.is_alive(),
            None => false,
        }
    }

    /// The alive actors with their ids from `lo` on, in id order.
    fn alive_from(&self, lo: usize) -> (v: Vec<(Id, &Entity)>)
        ensures
            v@.len() == live_ids(self.entities@, lo as int, self.entities@.len() as int).len(),
            forall|k: int| 0 <= k < v@.len() ==> {
                &&& #[trigger] v@[k].0 == live_ids(self.entities@, lo as int, self.entities@.len() as int)[k]
                &&& self.entities@[v@[k].0 as int] == Some(*v@[k].1)
            },
    {
        let mut v: Vec<(Id, &Entity)> = Vec::new();
        let n = self.entities.len();
        if lo >= n {
            return v;
        }
        let mut i: usize = lo;
        while i < n
            invariant
                lo <= i <= n,
                n == self.entities@.len(),
                v@.len() == live_ids(self.entities@, lo as int, i as int).len(),
                forall|k: int| 0 <= k < v@.len() ==> {
                    &&& #[trigger] v@[k].0 == live_ids(self.entities@, lo as int, i as int)[k]
                    &&& self.entities@[v@[k].0 as int] == Some(*v@[k].1)
                },
            decreases n - i,
        {
            let ghost ids = live_ids(self.entities@, lo as int, i as int);
            assert(live_ids(self.entities@, lo as int, i + 1) == ids + if live(self.entities@[i as int]) {
                seq![i]
            } else {
                seq![]
            });
            match &self.entities[i] {
                Some(e) => {
                    if e.is_alive() {
                        v.push((i, e));
                    }
                },
                None => {},
            }
            i = i + 1;
        }
        proof {
            if lo > n {
                assert(live_ids(self.entities@, lo as int, n as int).len() == 0);
            }
        }
        v
    }

    /// The alive map entities (the player among them), in id order.
    pub fn alive_actors(&self) -> (v: Vec<(Id, &Entity)>)
        ensures
            v@.len() == live_ids(self.entities@, FIRST_MAP_ID as int, self.entities@.len() as int).len(),
            forall|k: int| 0 <= k < v@.len() ==> {
                &&& #[trigger] v@[k].0 == live_ids(self.entities@, FIRST_MAP_ID as int, self.entities@.len() as int)[k]
                &&& self.entities@[v@[k].0 as int] == Some(*v@[k].1)
            },
    {
        self.alive_from(FIRST_MAP_ID)
    }

    /// The alive monsters (the actors after the player), in id order.
    pub fn monsters(&self) -> (v: Vec<(Id, &Entity)>)
        ensures
            v@.len() == live_ids(self.entities@, PLAYER_ID + 1, self.entities@.len() as int).len(),
            forall|k: int| 0 <= k < v@.len() ==> {
                &&& #[trigger] v@[k].0 == live_ids(self.entities@, PLAYER_ID + 1, self.entities@.len() as int)[k]
                &&& self.entities@[v@[k].0 as int] == Some(*v@[k].1)
            },
    {
        self.alive_from(PLAYER_ID + 1)
    }

    /// The first alive map entity standing at `pos`.
    pub fn actor_at(&self, pos: Point) -> (r: Option<Id>)
        ensures
            r == first_actor_at(self.entities@, pos, FIRST_MAP_ID as int),
    {
        let n = self.entities.len();
        if n < FIRST_MAP_ID {
            return None;
        }
        let mut i: usize = n;
        let mut found: Option<Id> = None;
        while i > FIRST_MAP_ID
            invariant
                FIRST_MAP_ID <= i <= n,
                n == self.entities@.len(),
                found == first_actor_at(self.entities@, pos, i as int),
            decreases i,
        {
            i = i - 1;
            match &self.entities[i] {
                Some(e) => {
                    if e.is_alive() && e.pos == pos {
                        found = Some(i);
                    }
                },
                None => {},
            }
        }
        found
    }

    /// Log `text` in `style` when the log has room for it; nothing else
    /// changes.
    fn note(&mut self, text: &str, style: LogStyle)
        ensures
            final(self).entities == old(self).entities,
            final(self).map == old(self).map,
            final(self).pr == old(self).pr,
            final(self).turn == old(self).turn,
            log_room(old(self).log, 0) ==> last_logged(final(self).log, text@, style),
            log_room(old(self).log, 1) ==> log_room(final(self).log, 0),
            !log_room(old(self).log, 0) ==> final(self).log == old(self).log,
    {
        if self.log.has_room() {
            self.log.log_styled(text, style);
        }
    }

    /// Move entity `id` to `p`; nothing when its slot is empty.
    fn set_pos(&mut self, id: Id, p: Point)
        requires
            id < old(self).entities@.len(),
        ensures
            final(self).entities@ == old(self).entities@.update(id as int, match old(self).entities@[id as int] {
                Some(e) => Some(moved(e, p)),
                None => None,
            }),
            final(self).map == old(self).map,
            final(self).pr == old(self).pr,
            final(self).turn == old(self).turn,
            final(self).log == old(self).log,
    {
        let mut slot: Option<Entity> = None;
        self.entities.set_and_swap(id, &mut slot);
        match slot {
            Some(mut e) => {
                e.pos = p;
                self.entities.set(id, Some(e));
            },
            None => {
                self.entities.set(id, None);
            },
        }
    }

    /// Take `dmg` health from entity `id`; whether its health dropped to
    /// zero or below.
    fn damage(&mut self, id: Id, dmg: i32) -> (dead: bool)
        requires
            id < old(self).entities@.len(),
            old(self).entities@[id as int] is Some,
            0 <= dmg <= MAX_ATTACK_DAMAGE,
            actor_of(old(self).entities@[id as int]->0).hp >= i32::MIN + MAX_ATTACK_DAMAGE,
        ensures
            ({
                let e = old(self).entities@[id as int]->0;
                let hp = actor_of(e).hp - dmg;
                &&& final(self).entities@ == old(self).entities@.update(id as int, Some(with_hp(e, hp as i32)))
                &&& dead == (hp <= 0)
            }),
            final(self).map == old(self).map,
            final(self).pr == old(self).pr,
            final(self).turn == old(self).turn,
            final(self).log == old(self).log,
    {
        let mut slot: Option<Entity> = None;
        self.entities.set_and_swap(id, &mut slot);
        let mut e = match slot {
            Some(e) => e,
            None => {
                return vstd::pervasive::unreached();
            },
        };
        let dead = match &mut e.role {
            Role::Actor(a) => {
                a.hp = a.hp - dmg;
                a.hp <= 0
            },
        };
        self.entities.set(id, Some(e));
        dead
    }

    /// Kill entity `id`: its death is logged, and a monster leaves the map.
    fn kill(&mut self, id: Id)
        requires
            id < old(self).entities@.len(),
        ensures
            final(self).entities@ == if id == PLAYER_ID {
                old(self).entities@
            } else {
                old(self).entities@.update(id as int, match old(self).entities@[id as int] {
                    Some(e) => Some(moved(e, pt(-1, -1))),
                    None => None,
                })
            },
            final(self).map == old(self).map,
            final(self).pr == old(self).pr,
            final(self).turn == old(self).turn,
            log_room(old(self).log, 0) ==> last_logged(final(self).log, death_message(id, match old(self).entities@[id as int] {
                Some(e) => e.name@,
                None => Seq::empty(),
            }), hurt_style(id)),
    {
        let name: Vec<char> = match &self.entities[id] {
            Some(e) => chars_of(e.name.as_str()),
            None => Vec::new(),
        };
        if id == PLAYER_ID {
            self.note("You die...", LogStyle::HurtPlayer);
        } else {
            let mut v = name;
            append_str(&mut v, " dies.");
            let msg = string_of(&v);
            self.note(msg.as_str(), LogStyle::HurtMonster);
            self.set_pos(id, INVALID_POS());
        }
    }

    /// An attack of `attacker_id` on `defender_id`: damage is rolled from
    /// the attacker's attack and the defender's defense and taken from the
    /// defender's health, the outcome is logged, and a defender brought to
    /// zero health is killed. Always ends the turn.
    pub fn attack(&mut self, attacker_id: Id, defender_id: Id) -> (b: bool)
        requires
            old(self).wf(),
            attacker_id < old(self).entities@.len(),
            defender_id < old(self).entities@.len(),
            old(self).entities@[attacker_id as int] is Some,
            old(self).entities@[defender_id as int] is Some,
            actor_of(old(self).entities@[defender_id as int]->0).hp >= i32::MIN + MAX_ATTACK_DAMAGE,
        ensures
            b,
            final(self).wf(),
            attack_outcome(*old(self), *final(self), attacker_id, defender_id),
    {
        let ghost g0 = *self;
        let (atk_name, atk_stat) = match &self.entities[attacker_id] {
            Some(e) => match &e.role {
                Role::Actor(a) => (chars_of(e.name.as_str()), a.attack),
            },
            None => {
                return vstd::pervasive::unreached();
            },
        };
        let (def_name, def_stat) = match &self.entities[defender_id] {
            Some(e) => match &e.role {
                Role::Actor(a) => (chars_of(e.name.as_str()), a.defense),
            },
            None => {
                return vstd::pervasive::unreached();
            },
        };
        assert(attack_ok(self.entities@[attacker_id as int]));
        let an = string_of(&atk_name);
        let dn = string_of(&def_name);
        let dmg = compute_damage(&mut self.rng, atk_stat, def_stat);
        let ghost d0 = g0.entities@[defender_id as int]->0;
        if dmg > 0 {
            let dead = self.damage(defender_id, dmg);
            let ghost hp1: i32 = (actor_of(d0).hp - dmg) as i32;
            let ghost es1 = self.entities@;
            assert(es1 == g0.entities@.update(defender_id as int, Some(with_hp(d0, hp1))));
            let style = if defender_id == PLAYER_ID {
                LogStyle::HurtPlayer
            } else {
                LogStyle::HurtMonster
            };
            let msg = hit_text(an.as_str(), dn.as_str(), dmg);
            self.note(msg.as_str(), style);
            if dead {
                let ghost g1 = *self;
                self.kill(defender_id);
                proof {
                    if defender_id != PLAYER_ID {
                        assert(moved(with_hp(d0, hp1), pt(-1, -1)) == with_hp(moved(d0, pt(-1, -1)), hp1));
                        assert(self.entities@ =~= g0.entities@.update(defender_id as int, Some(with_hp(moved(d0, pt(-1, -1)), hp1))));
                    }
                    assert(actor_of(self.entities@[defender_id as int]->0).hp == hp1);
                }
            } else {
                assert(actor_of(self.entities@[defender_id as int]->0).hp == hp1);
            }
        } else {
            let msg = miss_text(an.as_str(), dn.as_str());
            self.note(msg.as_str(), LogStyle::Normal);
            proof {
                assert(with_hp(d0, actor_of(d0).hp) == d0);
                assert(g0.entities@.update(defender_id as int, Some(d0)) =~= g0.entities@);
            }
        }
        proof {
            assert forall|i: int| 0 <= i < self.entities@.len() implies attack_ok(#[trigger] self.entities@[i]) by {
                assert(attack_ok(g0.entities@[i]));
            }
        }
        true
    }

    /// Try to move the player by (`dx`, `dy`): onto an alive actor other
    /// than the player it attacks it, onto passable terrain it moves, else
    /// nothing happens. Whether the turn ended.
    pub fn move_player(&mut self, dx: i32, dy: i32) -> (b: bool)
        requires
            old(self).wf(),
            fits_i32(old(self).spec_pp().x + dx),
            fits_i32(old(self).spec_pp().y + dy),
            first_actor_at(old(self).entities@, pt(old(self).spec_pp().x + dx, old(self).spec_pp().y + dy), FIRST_MAP_ID as int)
                matches Some(id) && id != PLAYER_ID ==> old(self).spec_player() is Some,
        ensures
            final(self).wf(),
            ({
                let target = pt(old(self).spec_pp().x + dx, old(self).spec_pp().y + dy);
                match first_actor_at(old(self).entities@, target, FIRST_MAP_ID as int) {
                    Some(id) if id != PLAYER_ID => b && attack_outcome(*old(self), *final(self), PLAYER_ID, id),
                    _ => if b {
                        &&& old(self).map.terrain.has(target)
                        &&& final(self).entities@ == match old(self).spec_player() {
                            Some(e) => old(self).entities@.update(PLAYER_ID as int, Some(moved(e, target))),
                            None => old(self).entities@,
                        }
                        &&& final(self).map == old(self).map
                        &&& final(self).log == old(self).log
                        &&& final(self).turn == old(self).turn
                    } else {
                        *final(self) == *old(self)
                    },
                }
            }),
    {
        let pp = self.pp();
        let target = pp.shift(dx, dy);
        match self.actor_at(target) {
            Some(target_id) => {
                if target_id != PLAYER_ID {
                    let _n = self.entities.len();
                    proof {
                        lemma_first_actor_at_live(self.entities@, target, FIRST_MAP_ID as int);
                    }
                    return self.attack(PLAYER_ID, target_id);
                }
            },
            None => {},
        }
        if !self.map.passable(target) {
            return false;
        }
        if PLAYER_ID < self.entities.len() {
            let ghost g0 = *self;
            self.set_pos(PLAYER_ID, target);
            proof {
                assert forall|i: int| 0 <= i < self.entities@.len() implies attack_ok(#[trigger] self.entities@[i]) by {
                    assert(attack_ok(g0.entities@[i]));
                }
            }
        }
        true
    }

    /// Update what entity `id` knows: its last known position and whether
    /// it was seen; nothing when its slot is empty.
    fn set_known(&mut self, id: Id, known_pos: Point, seen: bool)
        requires
            id < old(self).entities@.len(),
        ensures
            final(self).entities@ == old(self).entities@.update(id as int, match old(self).entities@[id as int] {
                Some(e) => Some(Entity { known_pos, seen, ..e }),
                None => None,
            }),
            final(self).map == old(self).map,
            final(self).pr == old(self).pr,
            final(self).turn == old(self).turn,
            final(self).log == old(self).log,
    {
        let mut slot: Option<Entity> = None;
        self.entities.set_and_swap(id, &mut slot);
        match slot {
            Some(mut e) => {
                e.known_pos = known_pos;
                e.seen = seen;
                self.entities.set(id, Some(e));
            },
            None => {
                self.entities.set(id, None);
            },
        }
    }

    /// Update the field of vision from the player's position: its range is
    /// the sight square intersected with the map shifted by the player's
    /// position; the ray-based map and then the shadow-casting map are
    /// computed from the player (walls and rubble block sight), the visible
    /// points kept; the terrain in view becomes known, and so does where
    /// the monsters in view stand. Nothing without a player on the map.
    pub fn update_fov(&mut self)
        requires
            old(self).wf(),
            pp_ok(old(self).spec_pp()),
        ensures
            final(self).wf(),
            old(self).spec_pp() == pt(-1, -1) ==> *final(self) == *old(self),
            old(self).spec_pp() != pt(-1, -1) ==> {
                let pp = old(self).spec_pp();
                let fov = final(self).map.fov;
                &&& fov.spec_range() == fov_range_at(pp)
                &&& fov_range_at(pp).spec_contains(pp) ==> fov.is_visible(pp)
                &&& final(self).map.fov_points@ == fov.spec_visibles()
                &&& final(self).map.terrain == old(self).map.terrain
                &&& final(self).map.known_terrain == old(self).map.known_terrain
                &&& final(self).map.waypoints == old(self).map.waypoints
                &&& final(self).map.level == old(self).map.level
                &&& final(self).pr == old(self).pr
                &&& final(self).turn == old(self).turn
                &&& final(self).log == old(self).log
                &&& final(self).entities@.len() == old(self).entities@.len()
                &&& forall|i: int| 0 <= i < old(self).entities@.len() ==> #[trigger] final(self).entities@[i]
                    == if i <= PLAYER_ID {
                    old(self).entities@[i]
                } else {
                    known_slot(old(self).entities@[i], fov)
                }
            },
    {
        let ghost g0 = *self;
        let pp = self.pp();
        if pp == INVALID_POS() {
            return;
        }
        let fov_rng = Range::new(-MAX_FOV_RANGE, -MAX_FOV_RANGE, MAX_FOV_RANGE + 1, MAX_FOV_RANGE + 1);
        let map_rng = Range::new(-pp.x, -pp.y, MAP_WIDTH - pp.x, MAP_HEIGHT - pp.y);
        let effective_rng = fov_rng.intersect(map_rng);
        self.map.fov.set_range(effective_rng);
        let lighter = MapLighter { terrain: &self.map.terrain };
        let _ = self.map.fov.vision_map(&lighter, pp);
        let terrain = &self.map.terrain;
        let pass_fn = |p: Point| -> (b: bool)
            {
                let t = match terrain_at(terrain, p) {
                    Some(t) => t,
                    None => WALL(),
                };
                !(t == WALL() || t == RUBBLE())
            };
        let visible = self.map.fov.ssc_vision_map(pp, MAX_FOV_RANGE, pass_fn, false);
        self.map.fov_points = vstd::slice::slice_to_vec(visible);
        let ghost fov = self.map.fov;
        let mut k: usize = 0;
        while k < self.map.fov_points.len()
            invariant
                self.map.fov == fov,
                fov.wf(),
                self.map.fov_points@ == fov.spec_visibles(),
                self.map.terrain == g0.map.terrain,
                self.map.known_terrain == g0.map.known_terrain,
                self.map.terrain@ == map_range(),
                self.map.known_terrain@ == map_range(),
            decreases self.map.fov_points@.len() - k,
        {
            let p = self.map.fov_points[k];
            proof {
                crate::rl::fov::lemma_visibles_small(fov, k as int);
            }
            if self.in_fov(p) {
                match self.map.terrain.at(p) {
                    Some(t) => {
                        self.map.known_terrain.set(p, t);
                    },
                    None => {},
                }
            }
            k = k + 1;
        }
        let ghost g1 = *self;
        let n = self.entities.len();
        let mut id: usize = PLAYER_ID + 1;
        while id < n
            invariant
                PLAYER_ID + 1 <= id,
                n == self.entities@.len(),
                n == g1.entities@.len(),
                self.map == g1.map,
                self.pr == g1.pr,
                self.turn == g1.turn,
                self.log == g1.log,
                self.map.fov.wf(),
                forall|i: int| 0 <= i < n ==> #[trigger] self.entities@[i]
                    == if i <= PLAYER_ID || i >= id {
                    g1.entities@[i]
                } else {
                    known_slot(g1.entities@[i], g1.map.fov)
                },
            decreases n - id,
        {
            let ghost before = self.entities@;
            let (alive, pos, known) = match &self.entities[id] {
                Some(e) => (e.is_alive(), e.pos, e.known_pos),
                None => (false, INVALID_POS(), INVALID_POS()),
            };
            if alive {
                if self.map.fov.visible(pos) {
                    match self.map.fov.at(pos) {
                        Some(cost) => {
                            if cost <= MAX_FOV_RANGE {
                                self.set_known(id, pos, true);
                            }
                        },
                        None => {},
                    }
                } else if self.map.fov.visible(known) {
                    let seen = match &self.entities[id] {
                        Some(e) => e.seen,
                        None => false,
                    };
                    self.set_known(id, INVALID_POS(), seen);
                }
            }
            assert(forall|i: int| 0 <= i < n && i != id ==> self.entities@[i] == before[i]);
            proof {
                assert(before[id as int] == g1.entities@[id as int]);
                assert(self.entities@[id as int] == known_slot(g1.entities@[id as int], g1.map.fov));
                assert forall|i: int| 0 <= i < n implies #[trigger] self.entities@[i]
                    == if i <= PLAYER_ID || i >= id + 1 {
                    g1.entities@[i]
                } else {
                    known_slot(g1.entities@[i], g1.map.fov)
                } by {
                    if i != id {
                        assert(self.entities@[i] == before[i]);
                    }
                    assert(before[i] == if i <= PLAYER_ID || i >= id {
                        g1.entities@[i]
                    } else {
                        known_slot(g1.entities@[i], g1.map.fov)
                    });
                }
            }
            id = id + 1;
        }
        proof {
            assert forall|i: int| 0 <= i < self.entities@.len() implies attack_ok(#[trigger] self.entities@[i]) by {
                assert(attack_ok(g0.entities@[i]));
            }
        }
    }

    /// The position and mind (state, target, guard post) of entity `id`,
    /// when it is an alive monster with a mind.
    fn mind_of(&self, id: Id) -> (r: Option<(Point, Mindstate, Point, Point)>)
        ensures
            r is Some <==> id < self.entities@.len() && live(self.entities@[id as int])
                && actor_of(self.entities@[id as int]->0).behavior is Some,
            r matches Some(m) ==> {
                let e = self.entities@[id as int]->0;
                let b = actor_of(e).behavior->0;
                m == (e.pos, b.state, b.target, b.guard)
            },
    {
        if id >= self.entities.len() {
            return None;
        }
        match &self.entities[id] {
            Some(e) => {
                if !e.is_alive() {
                    return None;
                }
                match &e.role {
                    Role::Actor(a) => match &a.behavior {
                        Some(b) => Some((e.pos, b.state, b.target, b.guard)),
                        None => None,
                    },
                }
            },
            None => None,
        }
    }

    /// Set the mind state and target of entity `id`.
    fn set_mind(&mut self, id: Id, state: Mindstate, target: Point)
        requires
            id < old(self).entities@.len(),
        ensures
            final(self).entities@ == old(self).entities@.update(id as int, match old(self).entities@[id as int] {
                Some(e) => Some(with_mind(e, state, target)),
                None => None,
            }),
            final(self).map == old(self).map,
            final(self).pr == old(self).pr,
            final(self).turn == old(self).turn,
            final(self).log == old(self).log,
    {
        let mut slot: Option<Entity> = None;
        self.entities.set_and_swap(id, &mut slot);
        match slot {
            Some(mut e) => {
                match &mut e.role {
                    Role::Actor(a) => match &mut a.behavior {
                        Some(b) => {
                            b.state = state;
                            b.target = target;
                        },
                        None => {},
                    },
                }
                self.entities.set(id, Some(e));
            },
            None => {
                self.entities.set(id, None);
            },
        }
    }

    /// Step monster `id` from `from` by (`dx`, `dy`) if that is not a null
    /// step and leads onto passable terrain free of alive actors; whether
    /// it stepped.
    fn try_step(&mut self, id: Id, from: Point, dx: i32, dy: i32) -> (b: bool)
        requires
            old(self).wf(),
            id < old(self).entities@.len(),
        ensures
            final(self).wf(),
            !b ==> *final(self) == *old(self),
            dx == 0 && dy == 0 ==> !b,
            b ==> first_actor_at(old(self).entities@, pt(from.x + dx, from.y + dy), FIRST_MAP_ID as int) is None
                && old(self).map.terrain.has(pt(from.x + dx, from.y + dy)),
            b ==> {
                let p = pt(from.x + dx, from.y + dy);
                &&& spec_in_map(p)
                &&& final(self).entities@ == old(self).entities@.update(id as int, match old(self).entities@[id as int] {
                    Some(e) => Some(moved(e, p)),
                    None => None,
                })
                &&& final(self).map == old(self).map
                &&& final(self).pr == old(self).pr
                &&& final(self).turn == old(self).turn
                &&& final(self).log == old(self).log
            },
    {
        if dx == 0 && dy == 0 {
            return false;
        }
        let nx: i64 = from.x as i64 + dx as i64;
        let ny: i64 = from.y as i64 + dy as i64;
        if nx < i32::MIN as i64 || nx > i32::MAX as i64 || ny < i32::MIN as i64 || ny > i32::MAX as i64 {
            return false;
        }
        let np = Point::new(nx as i32, ny as i32);
        if self.map.passable(np) && self.actor_at(np).is_none() {
            let ghost g0 = *self;
            self.set_pos(id, np);
            proof {
                assert forall|i: int| 0 <= i < self.entities@.len() implies attack_ok(#[trigger] self.entities@[i]) by {
                    assert(attack_ok(g0.entities@[i]));
                }
            }
            true
        } else {
            false
        }
    }

    /// The hunting turn of monster `id` at `mon_pos`: next to the player it
    /// attacks, else it steps along a shortest path to the player when the
    /// next position is free of alive actors.
    fn hunt(&mut self, id: Id, mon_pos: Point, pp: Point, actor_pos: &[bool])
        requires
            old(self).wf(),
            PLAYER_ID < id < old(self).entities@.len(),
            old(self).entities@[id as int] is Some,
            live(old(self).spec_player()),
            pp == old(self).spec_pp(),
        ensures
            final(self).wf(),
            round(old(self).entities@, final(self).entities@),
            final(self).map == old(self).map,
            final(self).turn == old(self).turn,
            spec_manhattan(mon_pos, pp) == 1 ==> attack_outcome(*old(self), *final(self), id, PLAYER_ID),
            spec_manhattan(mon_pos, pp) != 1 ==> final(self).log == old(self).log,
            forall|j: int| 0 <= j < old(self).entities@.len() && j != id && j != PLAYER_ID ==> #[trigger] final(self).entities@[j]
                == old(self).entities@[j],
    {
        let ghost gs = *self;
        proof {
            lemma_round_refl(gs.entities@);
        }
        if distance(mon_pos, pp) == 1 {
            self.attack(id, PLAYER_ID);
            proof {
                let e = gs.entities@[PLAYER_ID as int]->0;
                let x = self.entities@[PLAYER_ID as int];
                assert(x == Some(with_hp(e, actor_of(x->0).hp)));
                lemma_round_update(gs.entities@, gs.entities@, PLAYER_ID as int, x);
                assert(self.entities@ =~= gs.entities@.update(PLAYER_ID as int, x));
            }
        } else {
            let pather = MonsterPather { terrain: &self.map.terrain, actor_positions: actor_pos, player_pos: pp };
            let path = self.pr.astar_path(&pather, mon_pos, pp);
            proof {
                assert(round(gs.entities@, self.entities@));
            }
            match path {
                Some(path) => {
                    if path.len() > 1 {
                        let next = path[1];
                        if self.actor_at(next).is_none() {
                            assert(map_range().spec_contains(path@[1]));
                            let ghost gp = *self;
                            self.set_pos(id, next);
                            proof {
                                lemma_round_update(gs.entities@, gp.entities@, id as int,
                                    Some(moved(gp.entities@[id as int]->0, next)));
                                assert forall|i: int| 0 <= i < self.entities@.len() implies attack_ok(#[trigger] self.entities@[i]) by {
                                    assert(attack_ok(gp.entities@[i]));
                                }
                            }
                        }
                    }
                },
                None => {},
            }
        }
    }

    /// The wandering turn of monster `id` at `mon_pos` with mind target
    /// `target` and guard post `guard`: it heads for the guard post, else
    /// the target, else a random waypoint, trying an orthogonal step along
    /// either axis toward it (the axis tried first chosen at random).
    /// Returns the target kept: none once there or when it could not step.
    fn wander(&mut self, id: Id, mon_pos: Point, target: Point, guard: Point) -> (kept: Point)
        requires
            old(self).wf(),
            PLAYER_ID < id < old(self).entities@.len(),
            old(self).entities@[id as int] is Some,
        ensures
            final(self).wf(),
            round(old(self).entities@, final(self).entities@),
            final(self).map == old(self).map,
            final(self).turn == old(self).turn,
            guard != pt(-1, -1) ==> kept == pt(-1, -1) || kept == guard,
            guard == pt(-1, -1) && target != pt(-1, -1) ==> kept == pt(-1, -1) || kept == target,
            guard == pt(-1, -1) && target == pt(-1, -1) ==> kept == pt(-1, -1) || old(self).map.waypoints@.contains(kept),
            (guard != pt(-1, -1) && mon_pos == guard) || (guard == pt(-1, -1) && target != pt(-1, -1) && mon_pos == target)
                ==> kept == pt(-1, -1) && *final(self) == *old(self),
            final(self).log == old(self).log,
            forall|j: int| 0 <= j < old(self).entities@.len() && j != id ==> #[trigger] final(self).entities@[j]
                == old(self).entities@[j],
    {
        let ghost gs = *self;
        proof {
            lemma_round_refl(gs.entities@);
        }
        let wander_target = if guard != INVALID_POS() {
            guard
        } else if target != INVALID_POS() {
            target
        } else if self.map.waypoints.len() > 0 {
            let w = random_index(&mut self.rng, self.map.waypoints.len());
            self.map.waypoints[w]
        } else {
            mon_pos
        };
        if mon_pos == wander_target {
            return INVALID_POS();
        }
        let dx = step_toward(mon_pos.x, wander_target.x);
        let dy = step_toward(mon_pos.y, wander_target.y);
        let x_first = random_below(&mut self.rng, 2) == 0;
        let (ax, ay, bx, by) = if x_first {
            (dx, 0, 0, dy)
        } else {
            (0, dy, dx, 0)
        };
        let ghost g1 = *self;
        let mut stepped = self.try_step(id, mon_pos, ax, ay);
        if stepped {
            proof {
                let p = pt(mon_pos.x + ax, mon_pos.y + ay);
                lemma_round_update(gs.entities@, g1.entities@, id as int, Some(moved(g1.entities@[id as int]->0, p)));
            }
        } else {
            stepped = self.try_step(id, mon_pos, bx, by);
            if stepped {
                proof {
                    let p = pt(mon_pos.x + bx, mon_pos.y + by);
                    lemma_round_update(gs.entities@, g1.entities@, id as int, Some(moved(g1.entities@[id as int]->0, p)));
                }
            }
        }
        let cur = match &self.entities[id] {
            Some(e) => e.pos,
            None => mon_pos,
        };
        if !stepped || distance(cur, wander_target) <= 1 {
            INVALID_POS()
        } else {
            wander_target
        }
    }

    /// The turn of monster `id`, if it is alive and has a mind: seeing the
    /// player within sight range it hunts it, else it acts on its mind
    /// state; its mind is then updated.
    fn monster_turn(&mut self, id: Id, pp: Point, actor_pos: &[bool])
        requires
            old(self).wf(),
            PLAYER_ID < id < old(self).entities@.len(),
            live(old(self).spec_player()),
            pp == old(self).spec_pp(),
        ensures
            final(self).wf(),
            round(old(self).entities@, final(self).entities@),
            final(self).map == old(self).map,
            final(self).turn == old(self).turn,
            !has_mind(old(self).entities@[id as int]) ==> *final(self) == *old(self),
            has_mind(old(self).entities@[id as int]) ==> {
                let e = old(self).entities@[id as int]->0;
                let b = actor_of(e).behavior->0;
                let sees = old(self).spec_sees(e.pos) && spec_manhattan(e.pos, pp) <= MAX_FOV_RANGE;
                &&& final(self).entities@[id as int] is Some
                &&& actor_of(final(self).entities@[id as int]->0).behavior is Some
                &&& actor_of(final(self).entities@[id as int]->0).behavior->0.state == if sees {
                    Mindstate::Hunting
                } else {
                    b.state
                }
                &&& sees ==> actor_of(final(self).entities@[id as int]->0).behavior->0.target == pp
            },
            forall|j: int| 0 <= j < old(self).entities@.len() && j != id && j != PLAYER_ID ==> #[trigger] final(self).entities@[j]
                == old(self).entities@[j],
    {
        let ghost gs = *self;
        proof {
            lemma_round_refl(gs.entities@);
        }
        let (mon_pos, state, target, guard) = match self.mind_of(id) {
            Some(m) => m,
            None => {
                return;
            },
        };
        let sees_player = self.in_fov(mon_pos) && distance(mon_pos, pp) <= MAX_FOV_RANGE as i64;
        let mut new_state = state;
        let mut new_target = target;
        if sees_player {
            new_state = Mindstate::Hunting;
            new_target = pp;
        }
        match new_state {
            Mindstate::Hunting => {
                self.hunt(id, mon_pos, pp, actor_pos);
            },
            Mindstate::Wandering => {
                new_target = self.wander(id, mon_pos, new_target, guard);
            },
        }
        let ghost gm = *self;
        proof {
            assert(round(gs.entities@, gm.entities@));
        }
        self.set_mind(id, new_state, new_target);
        proof {
            assert(monster_round_slot(gm.entities@[id as int], gm.entities@[id as int], id as int));
            lemma_round_update(gm.entities@, gm.entities@, id as int,
                Some(with_mind(gm.entities@[id as int]->0, new_state, new_target)));
            assert(self.entities@ =~= gm.entities@.update(id as int, Some(with_mind(gm.entities@[id as int]->0, new_state, new_target))));
            lemma_round_chain(gs.entities@, gm.entities@, self.entities@);
            assert forall|i: int| 0 <= i < self.entities@.len() implies attack_ok(#[trigger] self.entities@[i]) by {
                assert(attack_ok(gm.entities@[i]));
            }
        }
    }

    /// Play the turns of the alive monsters, in id order, while the player
    /// lives. A monster that sees the player within sight range hunts it:
    /// next to the player it attacks, else it steps along a shortest path
    /// to the player when the next position is free. A wandering monster
    /// heads for its guard post, else its target, else a random waypoint,
    /// trying an orthogonal step along either axis toward it (the axis
    /// tried first chosen at random), and forgets the target once there or
    /// when it could not step.
    pub fn process_monsters(&mut self)
        requires
            old(self).wf(),
        ensures
            final(self).wf(),
            round(old(self).entities@, final(self).entities@),
            final(self).map == old(self).map,
            final(self).turn == old(self).turn,
            !live(old(self).spec_player()) ==> *final(self) == *old(self),
            live(final(self).spec_player()) ==> forall|id: int| PLAYER_ID < id < old(self).entities@.len() && #[trigger] sees_player(
                *old(self),
                id,
                old(self).spec_pp(),
            ) ==> hunts(final(self).entities@[id], old(self).spec_pp()),
    {
        let ghost g0 = *self;
        let n: usize = 1680;
        let mut actor_pos: Vec<bool> = vec![false; n];
        let actors = self.alive_actors();
        let mut k: usize = 0;
        while k < actors.len()
            invariant
                n == 1680,
                actor_pos@.len() == n,
            decreases actors@.len() - k,
        {
            let p = actors[k].1.pos;
            let idx: i64 = p.y as i64 * 80 + p.x as i64;
            if 0 <= idx && idx < 1680 {
                actor_pos.set(idx as usize, true);
            }
            k = k + 1;
        }
        let monsters = self.monsters();
        let mut ids: Vec<Id> = Vec::new();
        let len = self.entities.len();
        proof {
            lemma_live_ids_range(self.entities@, PLAYER_ID + 1, len as int);
        }
        let mut k: usize = 0;
        while k < monsters.len()
            invariant
                ids@.len() == k,
                k <= monsters@.len(),
                len == g0.entities@.len(),
                monsters@.len() == live_ids(g0.entities@, PLAYER_ID + 1, len as int).len(),
                forall|m: int| 0 <= m < monsters@.len() ==> #[trigger] monsters@[m].0 == live_ids(g0.entities@, PLAYER_ID + 1, len as int)[m],
                forall|m: int| 0 <= m < live_ids(g0.entities@, PLAYER_ID + 1, len as int).len() ==>
                    PLAYER_ID + 1 <= #[trigger] live_ids(g0.entities@, PLAYER_ID + 1, len as int)[m] < len,
                forall|m: int| 0 <= m < k ==> PLAYER_ID < #[trigger] ids@[m] < len,
                forall|m: int| 0 <= m < k ==> #[trigger] ids@[m] == live_ids(g0.entities@, PLAYER_ID + 1, len as int)[m],
            decreases monsters@.len() - k,
        {
            assert(monsters@[k as int].0 == live_ids(g0.entities@, PLAYER_ID + 1, len as int)[k as int]);
            ids.push(monsters[k].0);
            k = k + 1;
        }
        let pp = self.pp();
        proof {
            lemma_round_refl(g0.entities@);
            assert(ids@ =~= live_ids(g0.entities@, PLAYER_ID + 1, len as int));
            lemma_live_ids_sorted_complete(g0.entities@, PLAYER_ID + 1, len as int);
        }
        let ghost lids = live_ids(g0.entities@, PLAYER_ID + 1, len as int);
        let mut j: usize = 0;
        while j < ids.len()
            invariant
                self.wf(),
                len == self.entities@.len(),
                len == g0.entities@.len(),
                self.map == g0.map,
                self.turn == g0.turn,
                pp == g0.spec_pp(),
                forall|m: int| 0 <= m < ids@.len() ==> PLAYER_ID < #[trigger] ids@[m] < len,
                round(g0.entities@, self.entities@),
                !live(g0.spec_player()) ==> *self == g0,
                ids@ == lids,
                j <= ids@.len(),
                forall|a: int, b: int| 0 <= a < b < lids.len() ==> #[trigger] lids[a] < #[trigger] lids[b],
                forall|m: int| j <= m < ids@.len() ==> self.entities@[#[trigger] ids@[m] as int] == g0.entities@[ids@[m] as int],
                forall|m: int| 0 <= m < j && #[trigger] sees_player(g0, ids@[m] as int, pp) ==> hunts(
                    self.entities@[ids@[m] as int],
                    pp,
                ),
            ensures
                j == ids@.len() || !live(self.spec_player()),
            decreases ids@.len() - j,
        {
            if !self.player_alive() {
                break;
            }
            let id = ids[j];
            let ghost gs = *self;
            let ghost jj = j as int;
            j = j + 1;
            proof {
                lemma_round_pp(g0, gs);
            }
            self.monster_turn(id, pp, actor_pos.as_slice());
            proof {
                lemma_round_chain(g0.entities@, gs.entities@, self.entities@);
                assert forall|m: int| j <= m < ids@.len() implies self.entities@[#[trigger] ids@[m] as int] == g0.entities@[ids@[m] as int] by {
                    assert(lids[jj] < lids[m]);
                    assert(gs.entities@[ids@[m] as int] == g0.entities@[ids@[m] as int]);
                }
                assert forall|m: int| 0 <= m < j && #[trigger] sees_player(g0, ids@[m] as int, pp) implies hunts(
                    self.entities@[ids@[m] as int],
                    pp,
                ) by {
                    if m < jj {
                        assert(lids[m] < lids[jj]);
                        assert(hunts(gs.entities@[ids@[m] as int], pp));
                    } else {
                        assert(gs.entities@[id as int] == g0.entities@[id as int]);
                        assert(gs.map == g0.map);
                    }
                }
            }
        }
        proof {
            if live(self.spec_player()) {
                assert forall|id: int| PLAYER_ID < id < g0.entities@.len() && #[trigger] sees_player(g0, id, g0.spec_pp())
                    implies hunts(self.entities@[id], g0.spec_pp()) by {
                    assert(live(g0.entities@[id]));
                    assert(lids.contains(id as usize));
                    let m = choose|m: int| 0 <= m < lids.len() && lids[m] == id as usize;
                    assert(sees_player(g0, ids@[m] as int, pp));
                }
            }
        }
    }

    /// Place monsters on the first five spawn points (skipping the
    /// player's position and impassable ones): an early monster on the
    /// first three, a deeper one on the next two, each kind drawn at random.
    fn spawn_monsters(&mut self, spawns: &[Point])
        requires
            old(self).wf(),
        ensures
            final(self).wf(),
            final(self).entities@.len() <= old(self).entities@.len() + if spawns@.len() < 5 { spawns@.len() as int } else { 5 },
            old(self).entities@.len() <= final(self).entities@.len(),
            final(self).entities@.subrange(0, old(self).entities@.len() as int) == old(self).entities@,
            forall|i: int| old(self).entities@.len() <= i < final(self).entities@.len() ==>
                fresh_slot(#[trigger] final(self).entities@[i], spawns@, old(self).spec_pp()),
            final(self).map == old(self).map,
            final(self).pr == old(self).pr,
            final(self).turn == old(self).turn,
            final(self).log == old(self).log,
    {
        let ghost g0 = *self;
        let ghost lim: int = if spawns@.len() < 5 { spawns@.len() as int } else { 5 };
        let early = early_monsters();
        let mid = mid_monsters();
        let player_pos: Option<Point> = match self.player() {
            Some(e) => Some(e.pos),
            None => None,
        };
        let mut i: usize = 0;
        while i < spawns.len()
            invariant
                self.wf(),
                i <= spawns@.len(),
                lim == if spawns@.len() < 5 { spawns@.len() as int } else { 5 },
                g0.entities@.len() <= self.entities@.len(),
                i <= 5 ==> self.entities@.len() <= g0.entities@.len() + i,
                i > 5 ==> self.entities@.len() <= g0.entities@.len() + 5,
                self.entities@.subrange(0, g0.entities@.len() as int) == g0.entities@,
                forall|k: int| g0.entities@.len() <= k < self.entities@.len() ==>
                    fresh_slot(#[trigger] self.entities@[k], spawns@, g0.spec_pp()),
                self.map == g0.map,
                self.pr == g0.pr,
                self.turn == g0.turn,
                self.log == g0.log,
                early@.len() == 4,
                mid@.len() == 10,
                player_pos == match g0.spec_player() {
                    Some(e) => Some(e.pos),
                    None => None::<Point>,
                },
            decreases spawns@.len() - i,
        {
            if i >= 5 {
                break;
            }
            let pos = spawns[i];
            let ghost gi = *self;
            let skip = match player_pos {
                Some(p) => p == pos,
                None => false,
            };
            if !skip && self.map.passable(pos) {
                let kind: MonsterKind = if i < 3 {
                    early[random_index(&mut self.rng, early.len())]
                } else {
                    mid[random_index(&mut self.rng, mid.len())]
                };
                let data = monster_data(kind);
                let actor = Actor::new_monster(&data, kind);
                let entity = Entity {
                    name: data.name.to_owned(),
                    ch: data.ch,
                    pos,
                    known_pos: INVALID_POS(),
                    seen: false,
                    role: Role::Actor(actor),
                };
                proof {
                    assert(spawns@.subrange(0, lim)[i as int] == pos);
                }
                self.entities.push(Some(entity));
                proof {
                    assert(self.entities@.subrange(0, g0.entities@.len() as int) =~= gi.entities@.subrange(0, g0.entities@.len() as int));
                    assert forall|k: int| 0 <= k < self.entities@.len() implies attack_ok(#[trigger] self.entities@[k]) by {
                        if k < gi.entities@.len() {
                            assert(attack_ok(gi.entities@[k]));
                        }
                    }
                    assert forall|k: int| g0.entities@.len() <= k < self.entities@.len() implies
                        fresh_slot(#[trigger] self.entities@[k], spawns@, g0.spec_pp()) by {
                        if k < gi.entities@.len() {
                            assert(gi.entities@[k] == self.entities@[k]);
                        }
                    }
                }
            }
            i = i + 1;
        }
    }

    /// Start a new game on a generated level (see
    /// [`generate_map`](crate::shamogu::levelgen::generate_map)) from the
    /// given vault templates, with the player on a random waypoint, monsters
    /// on the spawn points, the field of vision computed and a welcome
    /// logged. Whether a level was generated; nothing else changes when
    /// none was.
    pub fn init(&mut self, small_vaults: &str, big_vaults: &str) -> (ok: bool)
        requires
            old(self).wf(),
        ensures
            final(self).wf(),
            !ok ==> final(self).entities == old(self).entities && final(self).turn == old(self).turn
                && final(self).log == old(self).log,
            ok ==> {
                &&& final(self).map.waypoints@.len() > 0
                &&& final(self).entities@.len() >= INVENTORY_SIZE + 1
                &&& forall|i: int| 0 <= i < INVENTORY_SIZE ==> (#[trigger] final(self).entities@[i]) is None
                &&& final(self).spec_player() matches Some(e) && e.name@ == "player"@ && spec_alive(e)
                    && final(self).map.waypoints@.contains(e.pos) && spec_in_map(e.pos)
                &&& forall|i: int| PLAYER_ID < i < final(self).entities@.len() ==>
                    placed_slot(#[trigger] final(self).entities@[i], final(self).spec_pp())
            },
    {
        match generate_map(&mut self.rng, &mut self.pr, small_vaults, big_vaults) {
            Some((terrain, waypoints, spawns)) => {
                let ghost w = waypoints@;
                self.init_level(&terrain, waypoints, spawns.as_slice());
                proof {
                    let e = self.spec_player()->0;
                    let k = choose|k: int| 0 <= k < w.len() && w[k] == e.pos;
                    assert(spec_in_map(w[k]));
                    assert forall|i: int| PLAYER_ID < i < self.entities@.len() implies
                        placed_slot(#[trigger] self.entities@[i], self.spec_pp()) by {
                        assert(fresh_slot(self.entities@[i], spawns@, self.spec_pp()));
                    }
                }
                true
            },
            None => false,
        }
    }

    /// Place the player on a new level: the terrain is copied in, none of it
    /// known yet, the waypoints kept; the player stands on a random
    /// waypoint (else on a random floor position), monsters are spawned, the
    /// field of vision computed, and a welcome logged.
    pub fn init_level(&mut self, terrain: &RlGrid, waypoints: Vec<Point>, spawns: &[Point])
        requires
            old(self).wf(),
            forall|k: int| 0 <= k < waypoints@.len() ==> pp_ok(#[trigger] waypoints@[k]),
        ensures
            final(self).wf(),
            final(self).map.waypoints@ == waypoints@,
            final(self).turn == old(self).turn,
            INVENTORY_SIZE + 1 <= final(self).entities@.len()
                <= INVENTORY_SIZE + 1 + if spawns@.len() < 5 { spawns@.len() as int } else { 5 },
            forall|i: int| 0 <= i < INVENTORY_SIZE ==> (#[trigger] final(self).entities@[i]) is None,
            final(self).spec_player() matches Some(e) && {
                let a = actor_of(e);
                &&& e.name@ == "player"@
                &&& e.ch == '@'
                &&& e.known_pos == e.pos
                &&& e.seen
                &&& a.hp == 9 && a.max_hp == 9 && a.attack == 2 && a.defense == 1 && a.behavior is None
                &&& if waypoints@.len() > 0 { waypoints@.contains(e.pos) } else { spec_in_map(e.pos) }
            },
            forall|i: int| PLAYER_ID < i < final(self).entities@.len() ==>
                fresh_slot(#[trigger] final(self).entities@[i], spawns@, final(self).spec_pp()),
            final(self).spec_pp() != pt(-1, -1) ==> {
                &&& final(self).map.fov.spec_range() == fov_range_at(final(self).spec_pp())
                &&& final(self).map.fov_points@ == final(self).map.fov.spec_visibles()
            },
    {
        let mut es: Vec<Option<Entity>> = Vec::new();
        let mut k: usize = 0;
        while k < INVENTORY_SIZE + 1
            invariant
                k <= INVENTORY_SIZE + 1,
                es@.len() == k,
                forall|i: int| 0 <= i < k ==> (#[trigger] es@[i]) is None,
            decreases INVENTORY_SIZE + 1 - k,
        {
            es.push(None);
            k = k + 1;
        }
        self.entities = es;
        self.map.terrain.copy_from(terrain);
        self.map.known_terrain.fill(UNKNOWN());
        self.map.waypoints = waypoints;
        let player_pos = if self.map.waypoints.len() > 0 {
            let w = random_index(&mut self.rng, self.map.waypoints.len());
            self.map.waypoints[w]
        } else {
            random_floor(&self.map.terrain, &mut self.rng)
        };
        let player = Entity {
            name: "player".to_owned(),
            ch: '@',
            pos: player_pos,
            known_pos: player_pos,
            seen: true,
            role: Role::Actor(Actor::new(2, 1, 9)),
        };
        self.entities.set(PLAYER_ID, Some(player));
        let ghost g1 = *self;
        self.spawn_monsters(spawns);
        let ghost g2 = *self;
        proof {
            assert(g1.entities@.len() == INVENTORY_SIZE + 1);
            assert(g2.entities@.subrange(0, g1.entities@.len() as int)[PLAYER_ID as int] == g2.entities@[PLAYER_ID as int]);
            assert(g2.entities@[PLAYER_ID as int] == g1.entities@[PLAYER_ID as int]);
            assert forall|i: int| 0 <= i < INVENTORY_SIZE implies (#[trigger] g2.entities@[i]) is None by {
                assert(g2.entities@.subrange(0, g1.entities@.len() as int)[i] == g2.entities@[i]);
                assert(g2.entities@[i] == g1.entities@[i]);
            }
        }
        self.update_fov();
        let ghost g3 = *self;
        self.note("Welcome to Shamogu! Press ? for help.", LogStyle::Normal);
        proof {
            assert(g3.entities@[PLAYER_ID as int] == g2.entities@[PLAYER_ID as int]);
            assert forall|i: int| PLAYER_ID < i < self.entities@.len() implies
                fresh_slot(#[trigger] self.entities@[i], spawns@, self.spec_pp()) by {
                if g2.spec_pp() != pt(-1, -1) {
                    assert(g3.entities@[i] == known_slot(g2.entities@[i], g3.map.fov));
                }
            }
            assert forall|i: int| 0 <= i < INVENTORY_SIZE implies (#[trigger] self.entities@[i]) is None by {
                assert(g3.entities@[i] == g2.entities@[i]);
            }
        }
    }

    /// End the turn: the turn count grows, the log opens a new turn, the
    /// monsters play and the field of vision is updated.
    pub fn end_turn(&mut self)
        requires
            old(self).wf(),
            old(self).turn < i32::MAX,
            pp_ok(old(self).spec_pp()),
        ensures
            final(self).wf(),
            final(self).turn == old(self).turn + 1,
            final(self).entities@.len() == old(self).entities@.len(),
            forall|i: int| 0 <= i < old(self).entities@.len() ==> turn_slot(
                old(self).entities@[i],
                #[trigger] final(self).entities@[i],
                i,
            ),
            final(self).spec_pp() == old(self).spec_pp(),
            old(self).spec_pp() != pt(-1, -1) ==> {
                &&& final(self).map.fov.spec_range() == fov_range_at(old(self).spec_pp())
                &&& final(self).map.fov_points@ == final(self).map.fov.spec_visibles()
            },
    {
        let ghost g0 = *self;
        self.turn = self.turn + 1;
        self.log.new_turn();
        self.process_monsters();
        let ghost g1 = *self;
        proof {
            lemma_round_pp(g0, g1);
        }
        self.update_fov();
        proof {
            assert forall|i: int| 0 <= i < g0.entities@.len() implies turn_slot(
                g0.entities@[i],
                #[trigger] self.entities@[i],
                i,
            ) by {
                assert(monster_round_slot(g0.entities@[i], g1.entities@[i], i));
                if g1.spec_pp() != pt(-1, -1) {
                    assert(self.entities@[i] == if i <= PLAYER_ID {
                        g1.entities@[i]
                    } else {
                        known_slot(g1.entities@[i], self.map.fov)
                    });
                }
            }
            if PLAYER_ID < g0.entities@.len() {
                assert(self.entities@[PLAYER_ID as int] == g1.entities@[PLAYER_ID as int]);
            }
        }
    }

    /// Whether `p` is within the current field of vision: lit within the
    /// sight range and visible.
    pub open spec fn spec_sees(&self, p: Point) -> bool {
        self.map.fov.cost_at(p) matches Some(c) && c <= MAX_FOV_RANGE && self.map.fov.is_visible(p)
    }

    /// Whether `p` is within the current field of vision: lit within the
    /// sight range and visible.
    pub fn in_fov(&self, p: Point) -> (b: bool)
        requires
            self.map.fov.wf(),
        ensures
            b == self.spec_sees(p),
    {
        match self.map.fov.at(p) {
            Some(cost) => cost <= MAX_FOV_RANGE && self.map.fov.visible(p),
            None => false,
        }
    }
}

/// A random floor position of the map, drawn at most ten thousand times;
/// the map's centre when none was found.
fn random_floor(terrain: &RlGrid, rng: &mut StdRng) -> (p: Point)
    requires
        terrain@ == map_range(),
    ensures
        spec_in_map(p),
{
    let mut k: u32 = 0;
    while k < 10000
        invariant
            terrain@ == map_range(),
        decreases 10000 - k,
    {
        let x = random_below(rng, MAP_WIDTH as u32) as i32;
        let y = random_below(rng, MAP_HEIGHT as u32) as i32;
        let p = Point::new(x, y);
        match terrain.at(p) {
            Some(c) => {
                if c == FLOOR() {
                    return p;
                }
            },
            None => {},
        }
        k = k + 1;
    }
    Point::new(MAP_WIDTH / 2, MAP_HEIGHT / 2)
}

/// A monster that an attack kills leaves the map: no position finds it
/// among the alive actors any more.
pub proof fn lemma_killed_monster_gone(g0: Game, g1: Game, att: Id, def: Id, pos: Point)
    requires
        def < g0.entities@.len(),
        g0.entities@.len() <= usize::MAX,
        g0.entities@[def as int] is Some,
        def != PLAYER_ID,
        attack_outcome(g0, g1, att, def),
        actor_of(g1.entities@[def as int]->0).hp <= 0,
        actor_of(g1.entities@[def as int]->0).hp < actor_of(g0.entities@[def as int]->0).hp,
    ensures
        first_actor_at(g1.entities@, pos, FIRST_MAP_ID as int) != Some(def),
{
    lemma_first_actor_at_live(g1.entities@, pos, FIRST_MAP_ID as int);
}

/// The actor that `first_actor_at` finds is alive and stands at `pos`.
pub proof fn lemma_first_actor_at_live(es: Seq<Option<Entity>>, pos: Point, lo: int)
    requires
        es.len() <= usize::MAX,
    ensures
        first_actor_at(es, pos, lo) matches Some(id) ==> lo <= id < es.len() && live(es[id as int])
            && es[id as int]->0.pos == pos,
    decreases es.len() - lo,
{
    if 0 <= lo < es.len() && !(live(es[lo]) && es[lo]->0.pos == pos) {
        lemma_first_actor_at_live(es, pos, lo + 1);
    }
}

/// The ids that `live_ids` lists lie in `lo..hi`.
pub proof fn lemma_live_ids_range(es: Seq<Option<Entity>>, lo: int, hi: int)
    requires
        0 <= lo,
        hi <= usize::MAX + 1,
    ensures
        forall|k: int| 0 <= k < live_ids(es, lo, hi).len() ==> lo <= #[trigger] live_ids(es, lo, hi)[k] < hi,
    decreases hi - lo,
{
    if hi > lo {
        lemma_live_ids_range(es, lo, hi - 1);
        let prev = live_ids(es, lo, hi - 1);
        assert forall|k: int| 0 <= k < live_ids(es, lo, hi).len() implies lo <= #[trigger] live_ids(es, lo, hi)[k] < hi by {
            if k < prev.len() {
                assert(live_ids(es, lo, hi)[k] == prev[k]);
            }
        }
    }
}

/// The ids of the live slots are strictly increasing and hold every live
/// slot of the span.
pub proof fn lemma_live_ids_sorted_complete(es: Seq<Option<Entity>>, lo: int, hi: int)
    requires
        0 <= lo,
        hi <= usize::MAX + 1,
    ensures
        forall|a: int, b: int| 0 <= a < b < live_ids(es, lo, hi).len() ==> #[trigger] live_ids(es, lo, hi)[a]
            < #[trigger] live_ids(es, lo, hi)[b],
        forall|i: int| lo <= i < hi && #[trigger] live(es[i]) ==> live_ids(es, lo, hi).contains(i as usize),
    decreases hi - lo,
{
    lemma_live_ids_range(es, lo, hi);
    if hi > lo {
        lemma_live_ids_sorted_complete(es, lo, hi - 1);
        lemma_live_ids_range(es, lo, hi - 1);
        let prev = live_ids(es, lo, hi - 1);
        let cur = live_ids(es, lo, hi);
        assert forall|a: int, b: int| 0 <= a < b < cur.len() implies #[trigger] cur[a] < #[trigger] cur[b] by {
            assert(cur[a] == prev[a]);
            if b < prev.len() {
                assert(cur[b] == prev[b]);
            } else {
                assert(cur[b] == hi - 1);
                assert(prev[a] < hi - 1);
            }
        }
        assert forall|i: int| lo <= i < hi && #[trigger] live(es[i]) implies cur.contains(i as usize) by {
            if i < hi - 1 {
                let m = choose|m: int| 0 <= m < prev.len() && prev[m] == i as usize;
                assert(cur[m] == prev[m]);
            } else {
                assert(cur[prev.len() as int] == (hi - 1) as usize);
            }
        }
    }
}

/// Whether the monster in slot `id` of `g` sees the player at `pp` within
/// sight range: it is alive, has a mind, and its position is in view.
pub open spec fn sees_player(g: Game, id: int, pp: Point) -> bool {
    &&& has_mind(g.entities@[id])
    &&& g.spec_sees(g.entities@[id]->0.pos)
    &&& spec_manhattan(g.entities@[id]->0.pos, pp) <= MAX_FOV_RANGE
}

/// Whether slot `s` holds an actor whose mind hunts the player at `pp`.
pub open spec fn hunts(s: Option<Entity>, pp: Point) -> bool {
    &&& s is Some
    &&& actor_of(s->0).behavior matches Some(b) && b.state == Mindstate::Hunting && b.target == pp
}

/// Replacing one slot by one that keeps the round's relation to the
/// slot's first value keeps the relation for all slots.
proof fn lemma_round_update(g0: Seq<Option<Entity>>, es: Seq<Option<Entity>>, k: int, x: Option<Entity>)
    requires
        round(g0, es),
        0 <= k < es.len(),
        monster_round_slot(g0[k], x, k),
    ensures
        round(g0, es.update(k, x)),
{
    assert forall|i: int| 0 <= i < g0.len() implies monster_round_slot(g0[i], #[trigger] es.update(k, x)[i], i) by {
        if i != k {
            assert(monster_round_slot(g0[i], es[i], i));
        }
    }
}

/// The round's relation holds of the slots themselves.
proof fn lemma_round_refl(es: Seq<Option<Entity>>)
    ensures
        round(es, es),
{
    assert forall|i: int| 0 <= i < es.len() implies monster_round_slot(es[i], #[trigger] es[i], i) by {
        match es[i] {
            Some(e) => {
                let a = actor_of(e);
                match a.behavior {
                    Some(b) => {},
                    None => {},
                }
            },
            None => {},
        }
    }
}

/// The round's relation chains.
proof fn lemma_round_chain(a: Seq<Option<Entity>>, b: Seq<Option<Entity>>, c: Seq<Option<Entity>>)
    requires
        round(a, b),
        round(b, c),
    ensures
        round(a, c),
{
    assert forall|i: int| 0 <= i < a.len() implies monster_round_slot(a[i], #[trigger] c[i], i) by {
        assert(monster_round_slot(a[i], b[i], i));
        assert(monster_round_slot(b[i], c[i], i));
    }
}

/// Under the round's relation the player stays put.
proof fn lemma_round_pp(g0: Game, g1: Game)
    requires
        round(g0.entities@, g1.entities@),
    ensures
        g1.spec_pp() == g0.spec_pp(),
{
    if PLAYER_ID < g0.entities@.len() {
        assert(monster_round_slot(g0.entities@[PLAYER_ID as int], g1.entities@[PLAYER_ID as int], PLAYER_ID as int));
    }
}

} // verus!
