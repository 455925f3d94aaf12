use gruid::cell::Cell;
use gruid::geom::Point;
use gruid::grid::{Frame, FrameCell, Grid};
use gruid::messages::{Key, MouseAction, Msg};
use gruid::recording::{FrameDecoder, FrameEncoder};
use gruid::ui::replay::{Replay, ReplayAction, ReplayConfig, ReplayEffect, ReplayKeys};
fn make_test_frames() -> Vec<u8> {
    let mut buf = Vec::new();
    {
        let mut enc = FrameEncoder::new(&mut buf);
        for i in 0..5 {
            let frame = Frame {
                cells: vec![FrameCell {
                    pos: Point::new(i, 0),
                    cell: Cell::default().with_char(char::from(b'A' + i as u8)),
                }],
                width: 10,
                height: 5,
                time_ms: i as u64 * 100,
            };
            enc.encode(&frame).unwrap();
        }
    }
    buf
}

fn make_replay(data: &[u8], w: i32, h: i32) -> Replay<&[u8]> {
    let decoder = FrameDecoder::new(data);
    let grid = Grid::new(w, h);
    Replay::new(ReplayConfig {
        grid,
        decoder,
        keys: ReplayKeys::default(),
    })
}

#[test]
fn replay_step_through_frames() {
    let data = make_test_frames();
    let mut replay = make_replay(&data, 10, 5);

    // Init
    let _ = replay.update(Msg::Init);
    assert_eq!(replay.frame_index(), 0);

    // Step forward
    replay.action = ReplayAction::Next;
    replay.handle_action();
    replay.apply_draw_action();
    assert_eq!(replay.frame_index(), 1);
    // Check the cell was applied
    assert_eq!(replay.grid.at(Point::new(0, 0)).ch, 'A');

    // Step forward again
    replay.action = ReplayAction::Next;
    replay.handle_action();
    replay.apply_draw_action();
    assert_eq!(replay.frame_index(), 2);
    assert_eq!(replay.grid.at(Point::new(1, 0)).ch, 'B');

    // Step backward
    replay.action = ReplayAction::Previous;
    replay.handle_action();
    replay.apply_draw_action();
    assert_eq!(replay.frame_index(), 1);
    // Undo should have reverted the 'B' cell
    assert_eq!(replay.grid.at(Point::new(1, 0)).ch, ' ');
}

#[test]
fn replay_speed_control() {
    let data = make_test_frames();
    let mut replay = make_replay(&data, 10, 5);

    assert_eq!(replay.speed(), 1);
    replay.action = ReplayAction::SpeedMore;
    replay.handle_action();
    assert_eq!(replay.speed(), 2);
    replay.action = ReplayAction::SpeedMore;
    replay.handle_action();
    assert_eq!(replay.speed(), 4);
    replay.action = ReplayAction::SpeedLess;
    replay.handle_action();
    assert_eq!(replay.speed(), 2);
}

#[test]
fn replay_set_frame() {
    let data = make_test_frames();
    let mut replay = make_replay(&data, 10, 5);

    replay.set_frame(3);
    assert_eq!(replay.frame_index(), 3);

    // Cells from frames 0, 1, 2 should be applied
    assert_eq!(replay.grid.at(Point::new(0, 0)).ch, 'A');
    assert_eq!(replay.grid.at(Point::new(1, 0)).ch, 'B');
    assert_eq!(replay.grid.at(Point::new(2, 0)).ch, 'C');

    // Seek back
    replay.set_frame(1);
    assert_eq!(replay.frame_index(), 1);
    assert_eq!(replay.grid.at(Point::new(2, 0)).ch, ' ');
}

#[test]
fn replay_help_key_default() {
    let keys = ReplayKeys::default();
    assert_eq!(keys.help, vec![Key::Char('?')]);
}

#[test]
fn replay_help_toggle() {
    let data = make_test_frames();
    let mut replay = make_replay(&data, 20, 10);
    let _ = replay.update(Msg::Init);
    assert!(!replay.is_help());

    // Press '?' to open help.
    let _ = replay.update(Msg::key(Key::Char('?')));
    assert!(replay.is_help());
    assert!(replay.help_pager.is_some());

    // Press Escape to close help.
    let _ = replay.update(Msg::key(Key::Escape));
    assert!(!replay.is_help());
    assert!(replay.help_pager.is_none());
}

#[test]
fn replay_help_dismiss_with_help_key() {
    let data = make_test_frames();
    let mut replay = make_replay(&data, 20, 10);
    let _ = replay.update(Msg::Init);

    // Open help
    let _ = replay.update(Msg::key(Key::Char('?')));
    assert!(replay.is_help());

    // Press '?' again to close help
    let _ = replay.update(Msg::key(Key::Char('?')));
    assert!(!replay.is_help());
}

#[test]
fn replay_help_draw() {
    let data = make_test_frames();
    let mut replay = make_replay(&data, 40, 15);
    let _ = replay.update(Msg::Init);

    // Open help
    let _ = replay.update(Msg::key(Key::Char('?')));
    assert!(replay.is_help());

    // Draw should succeed without panic.
    let mut grid = Grid::new(40, 15);
    replay.draw(&mut grid);
}

#[test]
fn replay_mouse_toggle_pause() {
    let data = make_test_frames();
    let mut replay = make_replay(&data, 10, 5);
    let _ = replay.update(Msg::Init);
    assert!(replay.is_auto_play());

    // Left click inside grid toggles pause.
    let _ = replay.update(Msg::Mouse {
        action: MouseAction::Main,
        pos: Point::new(1, 1),
        modifiers: Default::default(),
        time: std::time::Instant::now(),
    });
    assert!(!replay.is_auto_play());

    // Click again to resume.
    let _ = replay.update(Msg::Mouse {
        action: MouseAction::Main,
        pos: Point::new(1, 1),
        modifiers: Default::default(),
        time: std::time::Instant::now(),
    });
    assert!(replay.is_auto_play());
}

#[test]
fn replay_mouse_next_prev() {
    let data = make_test_frames();
    let mut replay = make_replay(&data, 10, 5);
    let _ = replay.update(Msg::Init);

    // Middle click = next frame, stops auto_play.
    let _ = replay.update(Msg::Mouse {
        action: MouseAction::Auxiliary,
        pos: Point::new(1, 1),
        modifiers: Default::default(),
        time: std::time::Instant::now(),
    });
    assert!(!replay.is_auto_play());
    assert_eq!(replay.frame_index(), 1);

    // Right click = previous frame.
    let _ = replay.update(Msg::Mouse {
        action: MouseAction::Secondary,
        pos: Point::new(1, 1),
        modifiers: Default::default(),
        time: std::time::Instant::now(),
    });
    assert_eq!(replay.frame_index(), 0);
}

#[test]
fn replay_mouse_outside_ignored() {
    let data = make_test_frames();
    let mut replay = make_replay(&data, 10, 5);
    let _ = replay.update(Msg::Init);
    assert!(replay.is_auto_play());

    // Click outside grid bounds — should be ignored.
    let _ = replay.update(Msg::Mouse {
        action: MouseAction::Main,
        pos: Point::new(20, 20),
        modifiers: Default::default(),
        time: std::time::Instant::now(),
    });
    assert!(replay.is_auto_play()); // unchanged
}

#[test]
fn replay_grid_auto_resize() {
    // Create frames where a later frame has larger dimensions.
    let mut buf = Vec::new();
    {
        let mut enc = FrameEncoder::new(&mut buf);
        enc.encode(&Frame {
            cells: vec![FrameCell {
                pos: Point::new(0, 0),
                cell: Cell::default().with_char('A'),
            }],
            width: 5,
            height: 5,
            time_ms: 0,
        })
        .unwrap();
        enc.encode(&Frame {
            cells: vec![FrameCell {
                pos: Point::new(9, 9),
                cell: Cell::default().with_char('B'),
            }],
            width: 15,
            height: 12,
            time_ms: 100,
        })
        .unwrap();
    }

    let mut replay = make_replay(&buf, 5, 5);
    assert_eq!(replay.grid.width(), 5);
    assert_eq!(replay.grid.height(), 5);

    // Advance to first frame (normal size).
    replay.set_frame(1);
    assert_eq!(replay.grid.width(), 5);
    assert_eq!(replay.grid.height(), 5);

    // Advance to second frame (larger — triggers resize).
    replay.set_frame(2);
    assert_eq!(replay.grid.width(), 15);
    assert_eq!(replay.grid.height(), 12);
    // The cell at (9,9) should have been applied.
    assert_eq!(replay.grid.at(Point::new(9, 9)).ch, 'B');
}

#[test]
fn replay_build_help_lines() {
    let data = make_test_frames();
    let replay = make_replay(&data, 20, 10);
    let lines = replay.build_help_lines();
    // Should have 9 lines (one per key group: quit, pause, speed_more, speed_less,
    // frame_next, frame_prev, forward, backward, help).
    assert_eq!(lines.len(), 9);
    // First line should mention "Quit".
    assert!(lines[0].content().contains("Quit"));
    // Last line should mention "Help".
    assert!(lines[8].content().contains("Help"));
    assert!(lines[8].content().contains("?"));
}


#[test]
fn replay_quit_ends_after_init() {
    let data = make_test_frames();
    let mut replay = make_replay(&data, 10, 5);
    assert!(replay.update(Msg::key(Key::Escape)).is_none());
    let first = replay.update(Msg::Init);
    assert_eq!(first, Some(ReplayEffect::Tick { delay_ms: 4, frame: 0 }));
    assert_eq!(replay.update(Msg::key(Key::Char('q'))), Some(ReplayEffect::End));
}

#[test]
fn replay_tick_advances_and_schedules() {
    let data = make_test_frames();
    let mut replay = make_replay(&data, 10, 5);
    let _ = replay.update(Msg::Init);
    // Before the next frame is decoded the delay is the minimum.
    assert_eq!(replay.tick(0), Some(ReplayEffect::Tick { delay_ms: 4, frame: 1 }));
    assert_eq!(replay.frame_index(), 1);
    // With the frames decoded, the tick asks for the recorded gap of 100 ms.
    replay.set_frame(4);
    replay.set_frame(1);
    assert_eq!(replay.tick(1), Some(ReplayEffect::Tick { delay_ms: 100, frame: 2 }));
    assert_eq!(replay.frame_index(), 2);
    // A stale tick does nothing.
    assert_eq!(replay.tick(0), None);
    assert_eq!(replay.frame_index(), 2);
    // At double speed the gap is halved.
    let _ = replay.update(Msg::key(Key::Char('+')));
    assert_eq!(replay.speed(), 2);
    assert_eq!(replay.tick(2), Some(ReplayEffect::Tick { delay_ms: 50, frame: 3 }));
}

#[test]
fn replay_speed_bounds() {
    let data = make_test_frames();
    let mut replay = make_replay(&data, 10, 5);
    for _ in 0..10 {
        let _ = replay.update(Msg::key(Key::Char('+')));
    }
    assert_eq!(replay.speed(), 64);
    for _ in 0..10 {
        let _ = replay.update(Msg::key(Key::Char('-')));
    }
    assert_eq!(replay.speed(), 1);
}

#[test]
fn replay_seek_by_time() {
    let data = make_test_frames();
    let mut replay = make_replay(&data, 10, 5);
    replay.set_frame(5);
    replay.set_frame(1);
    replay.seek_ms(250);
    // Frames are 100 ms apart; moving on until the last applied frame is at
    // 250 ms or later stops at the frame of 300 ms.
    assert_eq!(replay.frame_index(), 4);
    replay.seek_ms(-150);
    assert_eq!(replay.frame_index(), 2);
    assert_eq!(replay.grid.at(Point::new(2, 0)).ch, ' ');
    assert_eq!(replay.grid.at(Point::new(1, 0)).ch, 'B');
}

#[test]
fn replay_set_frame_past_end() {
    let data = make_test_frames();
    let mut replay = make_replay(&data, 10, 5);
    replay.set_frame(9);
    assert_eq!(replay.frame_index(), 5);
    replay.set_frame(0);
    assert_eq!(replay.frame_index(), 0);
    assert_eq!(replay.grid.at(Point::new(0, 0)).ch, ' ');
}
