use gruid::geom::Point;
use gruid::paths::traits::{AstarPather, Pather, WeightedPather};
use gruid::rl::fov::Lighter;
use gruid::rl::grid::{Cell, Grid};
use gruid::shamogu::colors::{monster_color, FG, RED, YELLOW};
use gruid::shamogu::entity::{monster_data, Actor, Entity, MonsterKind, RenderOrder, Role, INVALID_POS};
use gruid::shamogu::fov_::MapLighter;
use gruid::shamogu::gamemap::{GameMap, MappingPath, MonsterPather, MAP_HEIGHT, MAP_WIDTH};
use gruid::shamogu::log::{GameLog, LogStyle};
use gruid::shamogu::terrain::{blocks_los, is_known, passable, terrain_rune, FLOOR, FOLIAGE, RUBBLE, UNKNOWN, WALL};
use gruid::shamogu::tiles::ATTR_IN_MAP;

#[test]
fn terrain_properties() {
    assert!(!passable(WALL()));
    assert!(passable(FLOOR()));
    assert!(passable(FOLIAGE()));
    assert!(passable(RUBBLE()));
    assert!(blocks_los(WALL()));
    assert!(blocks_los(RUBBLE()));
    assert!(!blocks_los(FOLIAGE()));
    assert!(!is_known(UNKNOWN()));
    assert!(is_known(FLOOR()));
    assert_eq!(terrain_rune(WALL()), '#');
    assert_eq!(terrain_rune(FLOOR()), '.');
    assert_eq!(terrain_rune(Cell(4)), '\u{25ca}');
    assert_eq!(terrain_rune(Cell(99)), ' ');
}

#[test]
fn monster_colors() {
    assert_eq!(monster_color('r'), RED());
    assert_eq!(monster_color('c'), YELLOW());
    assert_eq!(monster_color('?'), FG());
    assert_eq!(RED().0, 0xFF5555);
    assert_eq!(ATTR_IN_MAP().0, 256);
}

fn rat(hp: i32, pos: Point) -> Entity {
    let d = monster_data(MonsterKind::HungryRat);
    let mut a = Actor::new_monster(&d, MonsterKind::HungryRat);
    a.hp = hp;
    Entity { name: d.name.to_string(), ch: d.ch, pos, known_pos: pos, seen: false, role: Role::Actor(a) }
}

#[test]
fn entity_alive_and_order() {
    let e = rat(3, Point::new(1, 1));
    assert!(e.is_alive());
    assert_eq!(e.render_order(), RenderOrder::Actor);
    let dead = rat(0, Point::new(1, 1));
    assert!(!dead.is_alive());
    assert_eq!(dead.render_order(), RenderOrder::Nothing);
    let away = rat(3, INVALID_POS());
    assert!(!away.is_alive());
    let mut e2 = rat(2, Point::new(0, 0));
    e2.actor_mut().unwrap().hp = 7;
    assert_eq!(e2.actor().unwrap().hp, 7);
}

#[test]
fn monster_templates() {
    let d = monster_data(MonsterKind::ExplodingNadre);
    assert_eq!((d.name, d.ch, d.attack, d.defense, d.hp), ("exploding nadre", 'n', 2, 3, 1));
    let a = Actor::new(3, 1, 9);
    assert_eq!((a.hp, a.max_hp, a.attack, a.defense), (9, 9, 3, 1));
    let m = Actor::new_monster(&d, MonsterKind::ExplodingNadre);
    assert_eq!(m.hp, 1);
    assert!(m.behavior.is_some());
}

#[test]
fn log_dedup_and_ticks() {
    let mut log = GameLog::new();
    log.log("you hit the rat");
    log.log("you hit the rat");
    assert_eq!(log.entries.len(), 1);
    assert_eq!(log.entries[0].text, "You hit the rat");
    assert_eq!(log.entries[0].dups, 1);
    log.new_turn();
    log.log("you hit the rat");
    assert_eq!(log.entries.len(), 2);
    assert!(log.entries[1].tick);
    log.log_styled("ouch", LogStyle::HurtPlayer);
    assert_eq!(log.entries.len(), 3);
    assert!(!log.entries[2].tick);
    assert_eq!(log.entries[2].style, LogStyle::HurtPlayer);
}

#[test]
fn log_recent_lines_wraps() {
    let mut log = GameLog::new();
    log.log("alpha beta");
    log.log("gamma");
    log.log("gamma");
    let lines = log.recent_lines(12, 5);
    assert_eq!(lines, vec!["Alpha beta".to_string(), "Gamma (2×)".to_string()]);
    let last = log.recent_lines(12, 1);
    assert_eq!(last, vec!["Gamma (2×)".to_string()]);
}

#[test]
fn log_trims_oldest() {
    let mut log = GameLog::new();
    for i in 0..10001 {
        log.log(&format!("m{i}"));
    }
    assert_eq!(log.entries.len(), 9001);
    assert_eq!(log.entries[0].text, "M1000");
}

#[test]
fn game_map_basics() {
    let m = GameMap::new();
    assert_eq!(m.level, 1);
    assert!(m.in_map(Point::new(0, 0)));
    assert!(!m.in_map(Point::new(MAP_WIDTH, 0)));
    assert!(!m.in_map(Point::new(0, MAP_HEIGHT)));
    assert_eq!(m.known_terrain.at(Point::new(3, 3)), Some(UNKNOWN()));
    assert!(!m.passable(Point::new(3, 3)));
    m.terrain.set(Point::new(3, 3), FLOOR());
    assert!(m.passable(Point::new(3, 3)));
    assert!(!m.passable(Point::new(-1, 3)));
}

#[test]
fn pathers() {
    let g = Grid::new(MAP_WIDTH, MAP_HEIGHT);
    g.fill(FLOOR());
    g.set(Point::new(6, 5), WALL());
    let mut actors = vec![false; (MAP_WIDTH * MAP_HEIGHT) as usize];
    actors[(5 * MAP_WIDTH + 4) as usize] = true;
    let mp = MonsterPather { terrain: &g, actor_positions: &actors, player_pos: Point::new(0, 0) };
    let mut buf = Vec::new();
    mp.neighbors(Point::new(5, 5), &mut buf);
    assert_eq!(buf, vec![Point::new(4, 5), Point::new(5, 6), Point::new(5, 4)]);
    assert_eq!(mp.cost(Point::new(5, 5), Point::new(4, 5)), 5);
    assert_eq!(mp.cost(Point::new(5, 5), Point::new(5, 6)), 1);
    assert_eq!(mp.estimate(Point::new(0, 0), Point::new(3, -4)), 7);
    let path = MappingPath::new(|p: Point| p.x >= 1);
    let mut buf2 = Vec::new();
    path.neighbors(Point::new(1, 0), &mut buf2);
    assert_eq!(buf2, vec![Point::new(2, 0), Point::new(0, 0), Point::new(1, 1)]);
    let mut buf3 = Vec::new();
    path.neighbors(Point::new(0, 0), &mut buf3);
    assert!(buf3.is_empty());
}

#[test]
fn map_lighter_costs() {
    let g = Grid::new(10, 10);
    g.fill(FLOOR());
    g.set(Point::new(2, 2), WALL());
    g.set(Point::new(3, 3), FOLIAGE());
    let l = MapLighter { terrain: &g };
    assert_eq!(l.max_cost(Point::new(0, 0)), 8);
    assert_eq!(l.cost(Point::new(0, 0), Point::new(1, 1), Point::new(2, 2)), -1);
    assert_eq!(l.cost(Point::new(0, 0), Point::new(2, 3), Point::new(3, 3)), 6);
    assert_eq!(l.cost(Point::new(0, 0), Point::new(0, 0), Point::new(1, 0)), 1);
    assert_eq!(l.cost(Point::new(0, 0), Point::new(0, 0), Point::new(-1, 0)), -1);
}
