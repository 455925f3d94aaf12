//! Entities: the player, monsters and (later) items, indexed by id.
use vstd::prelude::*;

use crate::geom::{Point, pt};

verus! {

/// Number of spirit inventory slots.
pub const N_SPIRITS: usize = 3;

/// Number of comestible inventory slots.
pub const N_COMESTIBLES: usize = 5;

/// Total inventory size.
pub const INVENTORY_SIZE: usize = N_SPIRITS + N_COMESTIBLES;

/// Entity ids index the entity vector.
pub type Id = usize;

/// First map entity id (the player always has it).
pub const FIRST_MAP_ID: usize = INVENTORY_SIZE;

/// The player's entity id.
pub const PLAYER_ID: usize = FIRST_MAP_ID;

/// The position of an entity that is not on the map.
#[allow(non_snake_case)]
pub fn INVALID_POS() -> (p: Point)
    ensures
        p == pt(-1, -1),
{
    Point::new(-1, -1)
}

/// Drawing precedence, lowest first.
#[derive(Debug, Clone, Copy, PartialEq, Eq, Structural, PartialOrd, Ord)]
pub enum RenderOrder {
    Nothing,
    Item,
    Actor,
}

/// Behaviour state of a monster.
#[derive(Debug, Clone, Copy, PartialEq, Eq, Structural)]
pub enum Mindstate {
    Wandering,
    Hunting,
}

/// Monster kinds.
#[derive(Debug, Clone, Copy, PartialEq, Eq, Structural)]
pub enum MonsterKind {
    HungryRat,
    BerserkingSpider,
    ConfusingEye,
    ThunderPorcupine,
    AcidMound,
    BarkingHound,
    VenomousViper,
    FireLlama,
    LashingFrog,
    RampagingBoar,
    ExplodingNadre,
    TemporalCat,
    WindFox,
    BlinkButterfly,
}

/// Monster AI state.
#[derive(Debug, Clone)]
pub struct Behavior {
    pub path: Vec<Point>,
    pub target: Point,
    pub guard: Point,
    pub state: Mindstate,
    pub kind: MonsterKind,
}

/// Actor component: health and combat stats.
#[derive(Debug, Clone)]
pub struct Actor {
    pub hp: i32,
    pub max_hp: i32,
    pub attack: i32,
    pub defense: i32,
    pub behavior: Option<Behavior>,
}

/// An entity's role.
#[derive(Debug, Clone)]
pub enum Role {
    Actor(Actor),
}

/// An entity in the game world.
#[derive(Debug, Clone)]
pub struct Entity {
    pub name: String,
    pub ch: char,
    pub pos: Point,
    pub known_pos: Point,
    pub seen: bool,
    pub role: Role,
}

/// An alive actor on the map: positive health at a valid position.
pub open spec fn spec_alive(e: Entity) -> bool {
    match e.role {
        Role::Actor(a) => a.hp > 0 && e.pos != pt(-1, -1),
    }
}

/// The actor component of an entity.
pub open spec fn actor_of(e: Entity) -> Actor {
    match e.role {
        Role::Actor(a) => a,
    }
}

impl Entity {
    /// An alive actor on the map: positive health at a valid position.
    pub fn is_alive(&self) -> (b: bool)
        ensures
            b == spec_alive(*self),
    {
        match &self.role {
            Role::Actor(a) => a.hp > 0 && self.pos != INVALID_POS(),
        }
    }

    /// The actor component, if the role is an actor.
    pub fn actor(&self) -> (r: Option<&Actor>)
        ensures
            r == match self.role {
                Role::Actor(a) => Some(&a),
            },
    {
        match &self.role {
            Role::Actor(a) => Some(a),
        }
    }

    /// The actor component for change, if the role is an actor.
    pub fn actor_mut(&mut self) -> (r: Option<&mut Actor>)
        ensures
            r is Some,
            match old(self).role {
                Role::Actor(a) => *r->0 == a,
            },
            *final(self) == (Entity { role: Role::Actor(*final(r->0)), ..*old(self) }),
    {
        match &mut self.role {
            Role::Actor(a) => Some(a),
        }
    }

    /// Drawing precedence: living actors over everything else.
    pub fn render_order(&self) -> (o: RenderOrder)
        ensures
            o == match self.role {
                Role::Actor(a) => if a.hp > 0 { RenderOrder::Actor } else { RenderOrder::Nothing },
            },
    {
        match &self.role {
            Role::Actor(a) => if a.hp > 0 {
                RenderOrder::Actor
            } else {
                RenderOrder::Nothing
            },
        }
    }
}

/// A monster template.
#[derive(Debug, Clone, Copy)]
pub struct MonsterData {
    pub kind: MonsterKind,
    pub name: &'static str,
    pub ch: char,
    pub attack: i32,
    pub defense: i32,
    pub hp: i32,
}

/// The template of a monster kind: its name, character, attack, defense
/// and health.
pub open spec fn monster_stats(kind: MonsterKind) -> (Seq<char>, char, int, int, int) {
    match kind {
        MonsterKind::HungryRat => ("hungry rat"@, 'r', 2, 0, 3),
        MonsterKind::BerserkingSpider => ("berserking spider"@, 's', 2, 1, 3),
        MonsterKind::ConfusingEye => ("confusing eye"@, 'e', 2, 0, 2),
        MonsterKind::ThunderPorcupine => ("thunder porcupine"@, 'p', 2, 0, 3),
        MonsterKind::AcidMound => ("acid mound"@, 'a', 2, 0, 5),
        MonsterKind::BarkingHound => ("barking hound"@, 'h', 3, 0, 4),
        MonsterKind::VenomousViper => ("venomous viper"@, 'v', 2, 1, 4),
        MonsterKind::FireLlama => ("fire llama"@, 'l', 2, 0, 4),
        MonsterKind::LashingFrog => ("lashing frog"@, 'F', 2, 1, 4),
        MonsterKind::RampagingBoar => ("rampaging boar"@, 'B', 3, 0, 4),
        MonsterKind::ExplodingNadre => ("exploding nadre"@, 'n', 2, 3, 1),
        MonsterKind::TemporalCat => ("temporal cat"@, 'c', 2, 0, 4),
        MonsterKind::WindFox => ("wind fox"@, 'f', 2, 0, 4),
        MonsterKind::BlinkButterfly => ("blinking butterfly"@, 'b', 2, 3, 2),
    }
}

/// Get the template of a monster kind.
pub fn monster_data(kind: MonsterKind) -> (d: MonsterData)
    ensures
        d.kind == kind,
        (d.name@, d.ch, d.attack as int, d.defense as int, d.hp as int) == monster_stats(kind),
{
    match kind {
        MonsterKind::HungryRat => MonsterData {
            kind,
            name: "hungry rat",
            ch: 'r',
            attack: 2,
            defense: 0,
            hp: 3,
        },
        MonsterKind::BerserkingSpider => MonsterData {
            kind,
            name: "berserking spider",
            ch: 's',
            attack: 2,
            defense: 1,
            hp: 3,
        },
        MonsterKind::ConfusingEye => MonsterData {
            kind,
            name: "confusing eye",
            ch: 'e',
            attack: 2,
            defense: 0,
            hp: 2,
        },
        MonsterKind::ThunderPorcupine => MonsterData {
            kind,
            name: "thunder porcupine",
            ch: 'p',
            attack: 2,
            defense: 0,
            hp: 3,
        },
        MonsterKind::AcidMound => MonsterData {
            kind,
            name: "acid mound",
            ch: 'a',
            attack: 2,
            defense: 0,
            hp: 5,
        },
        MonsterKind::BarkingHound => MonsterData {
            kind,
            name: "barking hound",
            ch: 'h',
            attack: 3,
            defense: 0,
            hp: 4,
        },
        MonsterKind::VenomousViper => MonsterData {
            kind,
            name: "venomous viper",
            ch: 'v',
            attack: 2,
            defense: 1,
            hp: 4,
        },
        MonsterKind::FireLlama => MonsterData {
            kind,
            name: "fire llama",
            ch: 'l',
            attack: 2,
            defense: 0,
            hp: 4,
        },
        MonsterKind::LashingFrog => MonsterData {
            kind,
            name: "lashing frog",
            ch: 'F',
            attack: 2,
            defense: 1,
            hp: 4,
        },
        MonsterKind::RampagingBoar => MonsterData {
            kind,
            name: "rampaging boar",
            ch: 'B',
            attack: 3,
            defense: 0,
            hp: 4,
        },
        MonsterKind::ExplodingNadre => MonsterData {
            kind,
            name: "exploding nadre",
            ch: 'n',
            attack: 2,
            defense: 3,
            hp: 1,
        },
        MonsterKind::TemporalCat => MonsterData {
            kind,
            name: "temporal cat",
            ch: 'c',
            attack: 2,
            defense: 0,
            hp: 4,
        },
        MonsterKind::WindFox => MonsterData {
            kind,
            name: "wind fox",
            ch: 'f',
            attack: 2,
            defense: 0,
            hp: 4,
        },
        MonsterKind::BlinkButterfly => MonsterData {
            kind,
            name: "blinking butterfly",
            ch: 'b',
            attack: 2,
            defense: 3,
            hp: 2,
        },
    }
}

impl Actor {
    /// An actor at full health with no behaviour.
    pub fn new(attack: i32, defense: i32, max_hp: i32) -> (a: Actor)
        ensures
            a.hp == max_hp,
            a.max_hp == max_hp,
            a.attack == attack,
            a.defense == defense,
            a.behavior is None,
    {
        Actor { hp: max_hp, max_hp, attack, defense, behavior: None }
    }

    /// A monster of the given template at full health, wandering with no
    /// path, target or guard post.
    pub fn new_monster(data: &MonsterData, kind: MonsterKind) -> (a: Actor)
        ensures
            a.hp == data.hp,
            a.max_hp == data.hp,
            a.attack == data.attack,
            a.defense == data.defense,
            a.behavior matches Some(b) && b.path@.len() == 0 && b.target == pt(-1, -1) && b.guard == pt(-1, -1)
                && b.state == Mindstate::Wandering && b.kind == kind,
    {
        Actor {
            hp: data.hp,
            max_hp: data.hp,
            attack: data.attack,
            defense: data.defense,
            behavior: Some(
                Behavior {
                    path: Vec::new(),
                    target: INVALID_POS(),
                    guard: INVALID_POS(),
                    state: Mindstate::Wandering,
                    kind,
                },
            ),
        }
    }
}

/// The monsters met early in the dungeon.
pub fn early_monsters() -> (v: Vec<MonsterKind>)
    ensures
        v@ == seq![
            MonsterKind::BerserkingSpider,
            MonsterKind::ConfusingEye,
            MonsterKind::HungryRat,
            MonsterKind::ThunderPorcupine,
        ],
{
    vec![MonsterKind::BerserkingSpider, MonsterKind::ConfusingEye, MonsterKind::HungryRat, MonsterKind::ThunderPorcupine]
}

/// The monsters met deeper in the dungeon.
pub fn mid_monsters() -> (v: Vec<MonsterKind>)
    ensures
        v@ == seq![
            MonsterKind::AcidMound,
            MonsterKind::BarkingHound,
            MonsterKind::BlinkButterfly,
            MonsterKind::ExplodingNadre,
            MonsterKind::FireLlama,
            MonsterKind::LashingFrog,
            MonsterKind::RampagingBoar,
            MonsterKind::TemporalCat,
            MonsterKind::VenomousViper,
            MonsterKind::WindFox,
        ],
{
    vec![
        MonsterKind::AcidMound,
        MonsterKind::BarkingHound,
        MonsterKind::BlinkButterfly,
        MonsterKind::ExplodingNadre,
        MonsterKind::FireLlama,
        MonsterKind::LashingFrog,
        MonsterKind::RampagingBoar,
        MonsterKind::TemporalCat,
        MonsterKind::VenomousViper,
        MonsterKind::WindFox,
    ]
}

} // verus!
