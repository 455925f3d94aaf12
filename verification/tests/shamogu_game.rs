use gruid::geom::{Point, Range};
use gruid::paths::pathrange::PathRange;
use gruid::shamogu::gamemap::{generate_map, try_generate_map};
use gruid::shamogu::terrain::passable;
use gruid::rl::grid::Grid;
use gruid::shamogu::entity::{monster_data, Actor, Entity, Mindstate, MonsterKind, Role, INVALID_POS, PLAYER_ID};
use gruid::shamogu::game::Game;
use gruid::shamogu::log::LogStyle;
use gruid::shamogu::terrain::{FLOOR, WALL};

fn player_at(p: Point) -> Entity {
    Entity {
        name: "player".to_string(),
        ch: '@',
        pos: p,
        known_pos: p,
        seen: true,
        role: Role::Actor(Actor::new(2, 1, 9)),
    }
}

fn monster_at(kind: MonsterKind, p: Point) -> Entity {
    let data = monster_data(kind);
    Entity {
        name: data.name.to_string(),
        ch: data.ch,
        pos: p,
        known_pos: INVALID_POS(),
        seen: false,
        role: Role::Actor(Actor::new_monster(&data, kind)),
    }
}

/// A game on an all-floor map with the player at `p` and the given
/// monsters after it.
fn floor_game(p: Point, monsters: Vec<Entity>) -> Game {
    let mut g = Game::new();
    g.map.terrain.fill(FLOOR());
    let mut es: Vec<Option<Entity>> = vec![None; PLAYER_ID];
    es.push(Some(player_at(p)));
    for m in monsters {
        es.push(Some(m));
    }
    g.entities = es;
    g
}

fn hp(e: &Entity) -> i32 {
    match &e.role {
        Role::Actor(a) => a.hp,
    }
}

#[test]
fn new_game_is_empty() {
    let g = Game::new();
    assert!(g.entities.is_empty());
    assert_eq!(g.turn, 0);
    assert!(g.log.entries.is_empty());
    assert!(g.player().is_none());
    assert_eq!(g.pp(), INVALID_POS());
    assert!(!g.player_alive());
    assert!(g.player_actor().is_none());
    assert!(g.alive_actors().is_empty());
    assert_eq!(g.actor_at(Point::new(0, 0)), None);
}

#[test]
fn accessors_find_player_and_monsters() {
    let rat = monster_at(MonsterKind::HungryRat, Point::new(5, 5));
    let mut dead = monster_at(MonsterKind::AcidMound, Point::new(6, 6));
    if let Role::Actor(a) = &mut dead.role {
        a.hp = 0;
    }
    let g = floor_game(Point::new(3, 3), vec![rat, dead]);
    assert_eq!(g.pp(), Point::new(3, 3));
    assert!(g.player_alive());
    assert_eq!(g.player_actor().unwrap().attack, 2);
    let ids: Vec<usize> = g.alive_actors().iter().map(|(i, _)| *i).collect();
    assert_eq!(ids, vec![PLAYER_ID, PLAYER_ID + 1]);
    let ms: Vec<usize> = g.monsters().iter().map(|(i, _)| *i).collect();
    assert_eq!(ms, vec![PLAYER_ID + 1]);
    assert_eq!(g.actor_at(Point::new(5, 5)), Some(PLAYER_ID + 1));
    assert_eq!(g.actor_at(Point::new(3, 3)), Some(PLAYER_ID));
    // A dead monster is no actor.
    assert_eq!(g.actor_at(Point::new(6, 6)), None);
}

#[test]
fn move_player_onto_floor_and_into_wall() {
    let mut g = floor_game(Point::new(3, 3), vec![]);
    assert!(g.move_player(1, 0));
    assert_eq!(g.pp(), Point::new(4, 3));
    g.map.terrain.set(Point::new(4, 4), WALL());
    assert!(!g.move_player(0, 1));
    assert_eq!(g.pp(), Point::new(4, 3));
    // Off the map is impassable too.
    let mut h = floor_game(Point::new(0, 0), vec![]);
    assert!(!h.move_player(-1, 0));
    assert_eq!(h.pp(), Point::new(0, 0));
}

#[test]
fn move_player_onto_monster_attacks() {
    let rat = monster_at(MonsterKind::HungryRat, Point::new(4, 3));
    let mut g = floor_game(Point::new(3, 3), vec![rat]);
    assert!(g.move_player(1, 0));
    // The player did not move; the outcome was logged.
    assert_eq!(g.pp(), Point::new(3, 3));
    let last = g.log.entries.last().unwrap();
    let rat = g.entities[PLAYER_ID + 1].as_ref().unwrap();
    let dmg = 3 - hp(rat);
    assert!((0..=2).contains(&dmg));
    if dmg == 0 {
        assert_eq!(last.text, "Player attacks hungry rat but misses.");
        assert_eq!(last.style, LogStyle::Normal);
    } else {
        assert_eq!(last.text, format!("Player hits hungry rat for {} damage.", dmg));
        assert_eq!(last.style, LogStyle::HurtMonster);
    }
}

#[test]
fn attack_kills_and_removes_monster() {
    let mut nadre = monster_at(MonsterKind::ExplodingNadre, Point::new(4, 3));
    if let Role::Actor(a) = &mut nadre.role {
        a.defense = 0;
    }
    let mut g = floor_game(Point::new(3, 3), vec![nadre]);
    let mut tries = 0;
    while g.entities[PLAYER_ID + 1].as_ref().unwrap().pos != INVALID_POS() && tries < 1000 {
        assert!(g.attack(PLAYER_ID, PLAYER_ID + 1));
        tries += 1;
    }
    let n = g.entities[PLAYER_ID + 1].as_ref().unwrap();
    assert_eq!(n.pos, INVALID_POS());
    assert!(hp(n) <= 0);
    let last = g.log.entries.last().unwrap();
    assert_eq!(last.text, "Exploding nadre dies.");
    assert_eq!(last.style, LogStyle::HurtMonster);
    assert_eq!(g.actor_at(Point::new(4, 3)), None);
}

#[test]
fn player_death_is_logged_and_player_stays() {
    let hound = monster_at(MonsterKind::BarkingHound, Point::new(4, 3));
    let mut g = floor_game(Point::new(3, 3), vec![hound]);
    if let Some(Some(p)) = g.entities.get_mut(PLAYER_ID) {
        if let Role::Actor(a) = &mut p.role {
            a.hp = 1;
            a.defense = 0;
        }
    }
    let mut tries = 0;
    while g.player_alive() && tries < 1000 {
        g.attack(PLAYER_ID + 1, PLAYER_ID);
        tries += 1;
    }
    assert!(!g.player_alive());
    assert_eq!(g.pp(), Point::new(3, 3));
    let last = g.log.entries.last().unwrap();
    assert_eq!(last.text, "You die...");
    assert_eq!(last.style, LogStyle::HurtPlayer);
}

#[test]
fn fov_near_origin_sees_player_and_monster() {
    let rat = monster_at(MonsterKind::HungryRat, Point::new(5, 3));
    let mut g = floor_game(Point::new(3, 3), vec![rat]);
    g.update_fov();
    // The range is the sight square cut to the map shifted by the player.
    assert_eq!(g.map.fov.range_(), Range::new(-3, -3, 9, 9));
    assert!(g.in_fov(Point::new(3, 3)));
    assert!(g.in_fov(Point::new(5, 3)));
    assert!(!g.in_fov(Point::new(20, 3)));
    assert!(g.map.fov_points.contains(&Point::new(3, 3)));
    let rat = g.entities[PLAYER_ID + 1].as_ref().unwrap();
    assert!(rat.seen);
    assert_eq!(rat.known_pos, Point::new(5, 3));
    assert_eq!(g.map.known_terrain.at(Point::new(4, 3)), Some(FLOOR()));
}

#[test]
fn fov_far_from_origin_lights_nothing() {
    let mut g = floor_game(Point::new(40, 10), vec![]);
    g.update_fov();
    assert_eq!(g.map.fov.range_(), Range::new(-8, -8, 9, 9));
    assert!(!g.in_fov(Point::new(40, 10)));
    assert!(g.map.fov_points.is_empty());
}

#[test]
fn update_fov_without_player_does_nothing() {
    let mut g = Game::new();
    g.update_fov();
    assert!(g.map.fov_points.is_empty());
}

#[test]
fn hunting_monster_next_to_player_attacks() {
    let hound = monster_at(MonsterKind::BarkingHound, Point::new(4, 3));
    let mut g = floor_game(Point::new(3, 3), vec![hound]);
    g.update_fov();
    g.process_monsters();
    let hound = g.entities[PLAYER_ID + 1].as_ref().unwrap();
    assert_eq!(hound.pos, Point::new(4, 3));
    match &hound.role {
        Role::Actor(a) => {
            let b = a.behavior.as_ref().unwrap();
            assert_eq!(b.state, Mindstate::Hunting);
            assert_eq!(b.target, Point::new(3, 3));
        }
    }
    let last = g.log.entries.last().unwrap();
    assert!(last.text.starts_with("Barking hound "));
    assert!(hp(g.player().unwrap()) <= 9);
}

#[test]
fn hunting_monster_steps_toward_player() {
    let rat = monster_at(MonsterKind::HungryRat, Point::new(6, 3));
    let mut g = floor_game(Point::new(3, 3), vec![rat]);
    g.update_fov();
    g.process_monsters();
    let rat = g.entities[PLAYER_ID + 1].as_ref().unwrap();
    assert_eq!(rat.pos, Point::new(5, 3));
    assert_eq!(g.pp(), Point::new(3, 3));
}

#[test]
fn wandering_monster_steps_toward_guard_post() {
    let mut rat = monster_at(MonsterKind::HungryRat, Point::new(30, 10));
    if let Role::Actor(a) = &mut rat.role {
        a.behavior.as_mut().unwrap().guard = Point::new(30, 15);
    }
    let mut g = floor_game(Point::new(3, 3), vec![rat]);
    g.process_monsters();
    let rat = g.entities[PLAYER_ID + 1].as_ref().unwrap();
    assert_eq!(rat.pos, Point::new(30, 11));
    match &rat.role {
        Role::Actor(a) => {
            let b = a.behavior.as_ref().unwrap();
            assert_eq!(b.state, Mindstate::Wandering);
            assert_eq!(b.target, Point::new(30, 15));
        }
    }
}

#[test]
fn end_turn_counts_turns() {
    let mut g = floor_game(Point::new(3, 3), vec![]);
    g.log.log("hello");
    g.end_turn();
    assert_eq!(g.turn, 1);
    g.log.log("again");
    assert!(g.log.entries.last().unwrap().tick);
    g.end_turn();
    assert_eq!(g.turn, 2);
    assert_eq!(g.pp(), Point::new(3, 3));
}

#[test]
fn init_level_places_player_and_monsters() {
    let mut g = Game::new();
    let terrain = Grid::new(80, 21);
    terrain.fill(FLOOR());
    let spawns = vec![
        Point::new(2, 2),
        Point::new(10, 5),
        Point::new(11, 5),
        Point::new(12, 5),
        Point::new(13, 5),
        Point::new(14, 5),
    ];
    g.init_level(&terrain, vec![Point::new(2, 2)], &spawns);
    assert_eq!(g.pp(), Point::new(2, 2));
    assert!(g.player_alive());
    assert_eq!(g.player().unwrap().name, "player");
    assert!(g.entities[..PLAYER_ID].iter().all(|e| e.is_none()));
    // The first spawn point is the player's: four monsters come.
    assert_eq!(g.entities.len(), PLAYER_ID + 1 + 4);
    let positions: Vec<Point> = g.monsters().iter().map(|(_, e)| e.pos).collect();
    assert_eq!(
        positions,
        vec![Point::new(10, 5), Point::new(11, 5), Point::new(12, 5), Point::new(13, 5)]
    );
    assert_eq!(g.map.terrain.at(Point::new(40, 10)), Some(FLOOR()));
    assert_eq!(g.log.entries.last().unwrap().text, "Welcome to Shamogu! Press ? for help.");
    assert!(g.in_fov(Point::new(2, 2)));
}

#[test]
fn init_level_without_waypoints_uses_the_map() {
    let mut g = Game::new();
    let terrain = Grid::new(80, 21);
    terrain.fill(WALL());
    g.init_level(&terrain, vec![], &[]);
    // No floor: the player stands at the map's centre.
    assert_eq!(g.pp(), Point::new(40, 10));
    assert_eq!(g.entities.len(), PLAYER_ID + 1);
}

/// A vault template of open floor, `w` by `h`, with entries in the middle
/// of its left and right sides and a waypoint at its centre.
fn open_vault(w: usize, h: usize) -> String {
    let mut s = String::new();
    for y in 0..h {
        for x in 0..w {
            let c = if (x == 0 || x == w - 1) && y == h / 2 {
                '-'
            } else if x == w / 2 && y == h / 2 {
                'W'
            } else {
                '.'
            };
            s.push(c);
        }
        s.push('\n');
    }
    s
}

/// Small and big vault files of open vaults, large enough for the
/// connected part of a level (whose cave the second automaton rule walls
/// up entirely) to reach a thousand positions.
fn vault_files() -> (String, String) {
    let small = format!("{}\n{}", open_vault(14, 6), open_vault(12, 5));
    let big = open_vault(38, 10);
    (small, big)
}

#[test]
fn generated_map_has_reachable_waypoints_and_spawns() {
    let (small, big) = vault_files();
    let mut g = Game::new();
    let mut pr = PathRange::new(Range::new(0, 0, 80, 21));
    let mut found = None;
    for _ in 0..200 {
        if let Some(r) = generate_map(&mut g.rng, &mut pr, &small, &big) {
            found = Some(r);
            break;
        }
    }
    let (terrain, waypoints, spawns) = found.expect("a level within 200 attempts");
    // Small vault files never give a level: the cave is walled up, and the
    // vaults and tunnels alone connect fewer than a thousand positions.
    let tiny = "#-#\n.W.\n#+#\n";
    assert!(try_generate_map(&mut g.rng, &mut pr, tiny, tiny).is_none());
    assert_eq!(terrain.size(), Point::new(80, 21));
    assert!(!waypoints.is_empty());
    for w in &waypoints {
        assert!(w.x >= 0 && w.x < 80 && w.y >= 0 && w.y < 21);
        assert!(passable(terrain.at(*w).unwrap()));
    }
    assert!(spawns.len() <= 20);
    for s in &spawns {
        assert_eq!(terrain.at(*s), Some(FLOOR()));
    }
}

#[test]
fn init_starts_a_game_on_a_generated_level() {
    let (small, big) = vault_files();
    let mut g = Game::new();
    let mut ok = false;
    for _ in 0..200 {
        if g.init(&small, &big) {
            ok = true;
            break;
        }
    }
    assert!(ok);
    assert!(g.player_alive());
    assert!(g.map.waypoints.contains(&g.pp()));
    assert!(g.entities.len() >= PLAYER_ID + 1);
    for (_, m) in g.monsters() {
        assert_ne!(m.pos, g.pp());
    }
    assert_eq!(g.log.entries.last().unwrap().text, "Welcome to Shamogu! Press ? for help.");
}
