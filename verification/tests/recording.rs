
use gruid::cell::Cell;
use gruid::geom::Point;
use gruid::grid::{Frame, FrameCell};
use gruid::recording::{FrameDecoder, FrameEncoder};
use gruid::style::{AttrMask, Color, Style};

#[test]
fn round_trip_empty_frame() {
    let frame = Frame {
        cells: vec![],
        width: 80,
        height: 24,
        time_ms: 1234,
    };

    let mut buf = Vec::new();
    {
        let mut enc = FrameEncoder::new(&mut buf);
        enc.encode(&frame).unwrap();
    }

    let mut dec = FrameDecoder::new(buf.as_slice());
    let decoded = dec.decode().unwrap().unwrap();
    assert_eq!(decoded.width, 80);
    assert_eq!(decoded.height, 24);
    assert_eq!(decoded.time_ms, 1234);
    assert!(decoded.cells.is_empty());

    // Next decode should be EOF
    assert!(dec.decode().unwrap().is_none());
}

#[test]
fn round_trip_with_cells() {
    let frame = Frame {
        cells: vec![
            FrameCell {
                pos: Point::new(5, 10),
                cell: Cell {
                    ch: '@',
                    style: Style {
                        fg: Color::from_rgb(255, 0, 0),
                        bg: Color::from_rgb(0, 0, 255),
                        attrs: AttrMask::BOLD() | AttrMask::UNDERLINE(),
                    },
                },
            },
            FrameCell {
                pos: Point::new(0, 0),
                cell: Cell::default(),
            },
        ],
        width: 40,
        height: 20,
        time_ms: 5000,
    };

    let mut buf = Vec::new();
    FrameEncoder::new(&mut buf).encode(&frame).unwrap();

    let decoded = FrameDecoder::new(buf.as_slice())
        .decode()
        .unwrap()
        .unwrap();

    assert_eq!(decoded.width, 40);
    assert_eq!(decoded.height, 20);
    assert_eq!(decoded.time_ms, 5000);
    assert_eq!(decoded.cells.len(), 2);

    // First cell
    assert_eq!(decoded.cells[0].pos, Point::new(5, 10));
    assert_eq!(decoded.cells[0].cell.ch, '@');
    assert_eq!(decoded.cells[0].cell.style.fg, Color::from_rgb(255, 0, 0));
    assert_eq!(decoded.cells[0].cell.style.bg, Color::from_rgb(0, 0, 255));
    assert!(decoded.cells[0]
        .cell
        .style
        .attrs
        .contains(AttrMask::BOLD()));
    assert!(decoded.cells[0]
        .cell
        .style
        .attrs
        .contains(AttrMask::UNDERLINE()));

    // Second cell — default
    assert_eq!(decoded.cells[1].pos, Point::new(0, 0));
    assert_eq!(decoded.cells[1].cell, Cell::default());
}

#[test]
fn round_trip_multiple_frames() {
    let frames: Vec<Frame> = (0..5)
        .map(|i| Frame {
            cells: vec![FrameCell {
                pos: Point::new(i, 0),
                cell: Cell::default().with_char(char::from(b'A' + i as u8)),
            }],
            width: 80,
            height: 24,
            time_ms: i as u64 * 100,
        })
        .collect();

    let mut buf = Vec::new();
    {
        let mut enc = FrameEncoder::new(&mut buf);
        for f in &frames {
            enc.encode(f).unwrap();
        }
    }

    let mut dec = FrameDecoder::new(buf.as_slice());
    for (i, expected) in frames.iter().enumerate() {
        let decoded = dec.decode().unwrap().unwrap();
        assert_eq!(decoded.time_ms, expected.time_ms, "frame {i}");
        assert_eq!(decoded.cells.len(), 1, "frame {i}");
        assert_eq!(decoded.cells[0].cell.ch, expected.cells[0].cell.ch, "frame {i}");
    }
    assert!(dec.decode().unwrap().is_none());
}

#[test]
fn unicode_round_trip() {
    let frame = Frame {
        cells: vec![FrameCell {
            pos: Point::new(0, 0),
            cell: Cell::default().with_char('\u{1F600}'), // 😀
        }],
        width: 1,
        height: 1,
        time_ms: 0,
    };

    let mut buf = Vec::new();
    FrameEncoder::new(&mut buf).encode(&frame).unwrap();
    let decoded = FrameDecoder::new(buf.as_slice())
        .decode()
        .unwrap()
        .unwrap();
    assert_eq!(decoded.cells[0].cell.ch, '\u{1F600}');
}

