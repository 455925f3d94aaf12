use gruid::geom::Point;
use gruid::grid::Grid;
use gruid::messages::{Key, Msg};
use gruid::shamogu::model::{ShamoguEffect, ShamoguModel, UI_HEIGHT, UI_WIDTH};

/// A vault template of open floor, `w` by `h`, with entries in the middle
/// of its left and right sides and a waypoint at its centre.
fn open_vault(w: usize, h: usize) -> String {
    let mut s = String::new();
    for y in 0..h {
        for x in 0..w {
            let c = if (x == 0 || x == w - 1) && y == h / 2 {
                '-'
            } else if x == w / 2 && y == h / 2 {
                'W'
            } else {
                '.'
            };
            s.push(c);
        }
        s.push('\n');
    }
    s
}

fn model() -> ShamoguModel {
    ShamoguModel::new(format!("{}\n{}", open_vault(14, 6), open_vault(12, 5)), open_vault(38, 10))
}

fn row(g: &Grid, y: i32) -> String {
    (0..UI_WIDTH).map(|x| g.at(Point::new(x, y)).ch).collect()
}

fn screen(m: &ShamoguModel) -> Grid {
    let g = Grid::new(UI_WIDTH, UI_HEIGHT);
    m.draw(&g);
    g
}

fn has_player(g: &Grid) -> bool {
    (0..UI_HEIGHT).any(|y| row(g, y).contains('@'))
}

/// A model whose game has started (level generation may need retries).
fn started() -> ShamoguModel {
    let mut m = model();
    for _ in 0..200 {
        assert_eq!(m.update(Msg::Init), None);
        if has_player(&screen(&m)) {
            return m;
        }
    }
    panic!("no level within 200 attempts");
}

#[test]
fn quit_keys_end_the_game() {
    let mut m = model();
    assert_eq!(m.update(Msg::key(Key::Char('Q'))), Some(ShamoguEffect::End));
    assert_eq!(m.update(Msg::key(Key::Escape)), Some(ShamoguEffect::End));
    assert_eq!(m.update(Msg::key(Key::Char('z'))), None);
}

#[test]
fn started_game_shows_status_and_player() {
    let m = started();
    let g = screen(&m);
    assert!(row(&g, UI_HEIGHT - 1).starts_with(" L:1 T:0 HP:9/9 A:2 D:1 "));
    assert!(row(&g, 0).starts_with("Welcome to Shamogu! Press ? for help."));
}

#[test]
fn waiting_passes_a_turn() {
    let mut m = started();
    assert_eq!(m.update(Msg::key(Key::Char('.'))), None);
    let g = screen(&m);
    assert!(row(&g, UI_HEIGHT - 1).starts_with(" L:1 T:1 "));
    assert_eq!(m.update(Msg::key(Key::Char(' '))), None);
    assert!(row(&screen(&m), UI_HEIGHT - 1).starts_with(" L:1 T:2 "));
}

#[test]
fn help_opens_and_closes() {
    let mut m = started();
    assert_eq!(m.update(Msg::key(Key::Char('?'))), None);
    let g = screen(&m);
    assert!(row(&g, 0).starts_with("Movement:"));
    // Keys go to the pager while the help is shown: no turn passes.
    assert_eq!(m.update(Msg::key(Key::Char('.'))), None);
    assert_eq!(m.update(Msg::key(Key::Escape)), None);
    let g = screen(&m);
    assert!(row(&g, UI_HEIGHT - 1).starts_with(" L:1 T:0 "));
}
