//! Frame recording and playback in a compact binary format.
//!
//! Each frame is written as:
//! ```text
//! [total_byte_len: u32 LE]
//! [time_ms: u64 LE]
//! [width: i32 LE]
//! [height: i32 LE]
//! [num_cells: u32 LE]
//! for each cell:
//!   [pos.x: i32 LE] [pos.y: i32 LE]
//!   [ch: u32 LE]  (Unicode scalar value)
//!   [fg: u32 LE] [bg: u32 LE] [attrs: u32 LE]
//! ```
//! where `total_byte_len` counts the bytes that follow it.
use vstd::prelude::*;
use std::io::{self, Read, Write};

use crate::cell::Cell;
use crate::geom::Point;
use crate::grid::{Frame, FrameCell};
use crate::style::{AttrMask, Color, Style};

verus! {

/// Bytes per serialized cell: pos(8) + ch(4) + fg(4) + bg(4) + attrs(4).
pub const CELL_SIZE: usize = 24;

/// Header size: time_ms(8) + width(4) + height(4) + num_cells(4).
pub const HEADER_SIZE: usize = 20;

// ---------------------------------------------------------------------------
// Byte-level model
// ---------------------------------------------------------------------------

/// The 4 little-endian bytes of `v`.
pub open spec fn le32(v: u32) -> Seq<u8> {
    seq![
        (v & 0xff) as u8,
        ((v >> 8u32) & 0xff) as u8,
        ((v >> 16u32) & 0xff) as u8,
        ((v >> 24u32) & 0xff) as u8,
    ]
}

/// The 8 little-endian bytes of `v`.
pub open spec fn le64(v: u64) -> Seq<u8> {
    le32((v & 0xffff_ffff) as u32) + le32((v >> 32u64) as u32)
}

/// The little-endian `u32` at offset `o` of `d`.
pub open spec fn u32_at(d: Seq<u8>, o: int) -> u32 {
    (d[o] as u32) | ((d[o + 1] as u32) << 8u32) | ((d[o + 2] as u32) << 16u32) | ((d[o + 3] as u32)
        << 24u32)
}

/// The little-endian `u64` at offset `o` of `d`.
pub open spec fn u64_at(d: Seq<u8>, o: int) -> u64 {
    (u32_at(d, o) as u64) | ((u32_at(d, o + 4) as u64) << 32u64)
}

/// The 24 bytes of one frame cell.
pub open spec fn cell_bytes(fc: FrameCell) -> Seq<u8> {
    le32(fc.pos.x as u32) + le32(fc.pos.y as u32) + le32(fc.cell.ch as u32) + le32(
        fc.cell.style.fg.0,
    ) + le32(fc.cell.style.bg.0) + le32(fc.cell.style.attrs.0)
}

/// The bytes of a sequence of cells, one after the other.
pub open spec fn cells_bytes(s: Seq<FrameCell>) -> Seq<u8> {
    Seq::new(24 * s.len(), |j: int| cell_bytes(s[j / 24])[j % 24])
}

/// The bytes of a frame after its length prefix.
pub open spec fn payload_bytes(time_ms: u64, width: i32, height: i32, cells: Seq<FrameCell>) -> Seq<
    u8,
> {
    le64(time_ms) + le32(width as u32) + le32(height as u32) + le32(cells.len() as u32)
        + cells_bytes(cells)
}

/// The bytes of a frame, length prefix included.
pub open spec fn frame_bytes(f: Frame) -> Seq<u8> {
    le32((20 + 24 * f.cells@.len()) as u32) + payload_bytes(f.time_ms, f.width, f.height, f.cells@)
}

/// The character of a scalar value, or U+FFFD when it is not one.
pub open spec fn char_of(v: u32) -> char {
    if vstd::utf8::is_scalar(v) {
        v as char
    } else {
        '\u{FFFD}'
    }
}

/// The frame cell stored at offset `o` of `d`.
pub open spec fn cell_at(d: Seq<u8>, o: int) -> FrameCell {
    FrameCell {
        pos: Point { x: u32_at(d, o) as i32, y: u32_at(d, o + 4) as i32 },
        cell: Cell {
            ch: char_of(u32_at(d, o + 8)),
            style: Style {
                fg: Color(u32_at(d, o + 12)),
                bg: Color(u32_at(d, o + 16)),
                attrs: AttrMask(u32_at(d, o + 20)),
            },
        },
    }
}

/// Why a frame payload cannot be decoded.
#[derive(Copy, Clone, Debug, PartialEq, Eq, Structural)]
pub enum FrameParseError {
    /// The payload is shorter than a header.
    TooSmall,
    /// The payload's length does not match its cell count.
    SizeMismatch { expected: u64, got: u64 },
}

/// The decoded fields of a payload: time, width, height and cells; or why
/// it cannot be decoded.
pub open spec fn parse_payload(d: Seq<u8>) -> Result<(u64, i32, i32, Seq<FrameCell>), FrameParseError> {
    if d.len() < 20 {
        Err(FrameParseError::TooSmall)
    } else {
        let n = u32_at(d, 16) as int;
        if d.len() != 20 + 24 * n {
            Err(FrameParseError::SizeMismatch { expected: (20 + 24 * n) as u64, got: d.len() as u64 })
        } else {
            Ok(
                (
                    u64_at(d, 0),
                    u32_at(d, 8) as i32,
                    u32_at(d, 12) as i32,
                    Seq::new(n as nat, |i: int| cell_at(d, 20 + 24 * i)),
                ),
            )
        }
    }
}

// ---------------------------------------------------------------------------
// Encoding
// ---------------------------------------------------------------------------

fn push_u32_le(v: &mut Vec<u8>, x: u32)
    ensures
        final(v)@ == old(v)@ + le32(x),
{
    let b0: u8 = (x & 0xff) as u8;
    let b1: u8 = ((x >> 8u32) & 0xff) as u8;
    let b2: u8 = ((x >> 16u32) & 0xff) as u8;
    let b3: u8 = ((x >> 24u32) & 0xff) as u8;
    v.push(b0);
    v.push(b1);
    v.push(b2);
    v.push(b3);
    assert(v@ =~= old(v)@ + le32(x));
}

fn push_u64_le(v: &mut Vec<u8>, x: u64)
    ensures
        final(v)@ == old(v)@ + le64(x),
{
    push_u32_le(v, (x & 0xffff_ffff) as u32);
    push_u32_le(v, (x >> 32u64) as u32);
    assert(v@ =~= old(v)@ + le64(x));
}

/// Position `j` of the bytes of cells `s` lies in cell `j / 24`.
proof fn lemma_cells_bytes_push(s: Seq<FrameCell>, c: FrameCell)
    ensures
        cells_bytes(s.push(c)) == cells_bytes(s) + cell_bytes(c),
{
    let a = cells_bytes(s.push(c));
    let b = cells_bytes(s) + cell_bytes(c);
    assert(a.len() == b.len());
    assert forall|j: int| 0 <= j < a.len() implies a[j] == b[j] by {
        if j < 24 * s.len() {
            assert(j / 24 < s.len()) by (nonlinear_arith)
                requires
                    0 <= j < 24 * s.len(),
            ;
        } else {
            let k = j - 24 * s.len();
            assert(0 <= k < 24);
            assert(j / 24 == s.len() && j % 24 == k) by (nonlinear_arith)
                requires
                    j == 24 * s.len() + k,
                    0 <= k < 24,
            ;
        }
    }
    assert(a =~= b);
}

/// The bytes of frame `f`, as [`FrameEncoder::encode`] writes them.
pub fn encode_frame_bytes(f: &Frame) -> (v: Vec<u8>)
    requires
        20 + 24 * f.cells@.len() <= u32::MAX,
    ensures
        v@ == frame_bytes(*f),
{
    let n: usize = f.cells.len();
    let total: u32 = (20 + n * 24) as u32;
    let mut v: Vec<u8> = Vec::new();
    push_u32_le(&mut v, total);
    push_u64_le(&mut v, f.time_ms);
    push_u32_le(&mut v, f.width as u32);
    push_u32_le(&mut v, f.height as u32);
    push_u32_le(&mut v, n as u32);
    let ghost head = v@;
    let mut i: usize = 0;
    while i < n
        invariant
            n == f.cells@.len(),
            i <= n,
            v@ == head + cells_bytes(f.cells@.take(i as int)),
        decreases n - i,
    {
        let fc = f.cells[i];
        push_u32_le(&mut v, fc.pos.x as u32);
        push_u32_le(&mut v, fc.pos.y as u32);
        push_u32_le(&mut v, fc.cell.ch as u32);
        push_u32_le(&mut v, fc.cell.style.fg.0);
        push_u32_le(&mut v, fc.cell.style.bg.0);
        push_u32_le(&mut v, fc.cell.style.attrs.0);
        proof {
            lemma_cells_bytes_push(f.cells@.take(i as int), fc);
            assert(f.cells@.take(i as int).push(fc) =~= f.cells@.take(i + 1));
        }
        i = i + 1;
    }
    assert(f.cells@.take(n as int) =~= f.cells@);
    assert(v@ =~= frame_bytes(*f));
    v
}

// ---------------------------------------------------------------------------
// Decoding
// ---------------------------------------------------------------------------

/// Reads the little-endian `u32` at offset `o`.
pub fn read_u32_le(d: &[u8], o: usize) -> (r: u32)
    requires
        o + 4 <= d@.len(),
    ensures
        r == u32_at(d@, o as int),
{
    (d[o] as u32) | ((d[o + 1] as u32) << 8u32) | ((d[o + 2] as u32) << 16u32) | ((d[o + 3] as u32)
        << 24u32)
}

/// Reads the little-endian `u64` at offset `o`.
pub fn read_u64_le(d: &[u8], o: usize) -> (r: u64)
    requires
        o + 8 <= d@.len(),
    ensures
        r == u64_at(d@, o as int),
{
    let n: usize = d.len();
    let lo: u32 = read_u32_le(d, o);
    let hi: u32 = read_u32_le(d, o + 4);
    (lo as u64) | ((hi as u64) << 32u64)
}

/// The character of a scalar value (`char::from_u32`): `None` exactly when
/// `v` is a surrogate or above U+10FFFF.
#[verifier::external_body]
fn char_from_u32(v: u32) -> (r: Option<char>)
    ensures
        r matches Some(c) ==> c as u32 == v,
        r is Some <==> vstd::utf8::is_scalar(v),
{
    char::from_u32(v)
}

/// Decodes a frame payload (the bytes after the length prefix).
pub fn parse_frame_payload(d: &[u8]) -> (r: Result<Frame, FrameParseError>)
    ensures
        match (r, parse_payload(d@)) {
            (Ok(f), Ok((t, w, h, cells))) => f.time_ms == t && f.width == w && f.height == h
                && f.cells@ == cells,
            (Err(e), Err(e2)) => e == e2,
            _ => false,
        },
{
    if d.len() < HEADER_SIZE {
        return Err(FrameParseError::TooSmall);
    }
    let time_ms: u64 = read_u64_le(d, 0);
    let width: i32 = #[verifier::truncate] (read_u32_le(d, 8) as i32);
    let height: i32 = #[verifier::truncate] (read_u32_le(d, 12) as i32);
    let n32: u32 = read_u32_le(d, 16);
    let expected: u64 = 20 + (n32 as u64) * 24;
    if (d.len() as u64) != expected {
        return Err(FrameParseError::SizeMismatch { expected, got: d.len() as u64 });
    }
    let n: usize = n32 as usize;
    let ghost spec_cells = Seq::new(n as nat, |i: int| cell_at(d@, 20 + 24 * i));
    let mut cells: Vec<FrameCell> = Vec::new();
    let mut i: usize = 0;
    let mut off: usize = HEADER_SIZE;
    let dl: usize = d.len();
    while i < n
        invariant
            dl == d@.len(),
            d@.len() == 20 + 24 * n,
            n == u32_at(d@, 16),
            spec_cells == Seq::new(n as nat, |i: int| cell_at(d@, 20 + 24 * i)),
            i <= n,
            off == 20 + 24 * i,
            cells@ == spec_cells.take(i as int),
        decreases n - i,
    {
        proof {
            assert(off + 24 <= d@.len()) by (nonlinear_arith)
                requires
                    off == 20 + 24 * i,
                    i < n,
                    d@.len() == 20 + 24 * n,
            ;
        }
        let x: i32 = #[verifier::truncate] (read_u32_le(d, off) as i32);
        let y: i32 = #[verifier::truncate] (read_u32_le(d, off + 4) as i32);
        let ch_u32: u32 = read_u32_le(d, off + 8);
        let fg: u32 = read_u32_le(d, off + 12);
        let bg: u32 = read_u32_le(d, off + 16);
        let attrs: u32 = read_u32_le(d, off + 20);
        let ch: char = match char_from_u32(ch_u32) {
            Some(c) => c,
            None => '\u{FFFD}',
        };
        proof {
            if vstd::utf8::is_scalar(ch_u32) {
                vstd::utf8::char_u32_cast(ch, ch_u32);
            }
        }
        cells.push(
            FrameCell {
                pos: Point { x, y },
                cell: Cell { ch, style: Style { fg: Color(fg), bg: Color(bg), attrs: AttrMask(attrs) } },
            },
        );
        assert(cells@ =~= spec_cells.take(i + 1));
        i = i + 1;
        off = off + CELL_SIZE;
    }
    assert(cells@ =~= spec_cells);
    Ok(Frame { cells, width, height, time_ms })
}

// ---------------------------------------------------------------------------
// The round-trip law
// ---------------------------------------------------------------------------

proof fn lemma_le32_round_trip(s: Seq<u8>, o: int, v: u32)
    requires
        0 <= o,
        o + 4 <= s.len(),
        s.subrange(o, o + 4) == le32(v),
    ensures
        u32_at(s, o) == v,
{
    assert(s[o] == s.subrange(o, o + 4)[0]);
    assert(s[o + 1] == s.subrange(o, o + 4)[1]);
    assert(s[o + 2] == s.subrange(o, o + 4)[2]);
    assert(s[o + 3] == s.subrange(o, o + 4)[3]);
    let b0 = s[o];
    let b1 = s[o + 1];
    let b2 = s[o + 2];
    let b3 = s[o + 3];
    assert((b0 as u32) | ((b1 as u32) << 8u32) | ((b2 as u32) << 16u32) | ((b3 as u32) << 24u32)
        == v) by (bit_vector)
        requires
            b0 == (v & 0xff) as u8,
            b1 == ((v >> 8u32) & 0xff) as u8,
            b2 == ((v >> 16u32) & 0xff) as u8,
            b3 == ((v >> 24u32) & 0xff) as u8,
    ;
}

proof fn lemma_bits_round_trip(v: u64, x: i32, c: char)
    ensures
        (((v & 0xffff_ffff) as u32) as u64) | ((((v >> 32u64) as u32) as u64) << 32u64) == v,
        ((x as u32) as i32) == x,
        char_of(c as u32) == c,
{
    assert((((v & 0xffff_ffff) as u32) as u64) | ((((v >> 32u64) as u32) as u64) << 32u64) == v)
        by (bit_vector);
    assert(((x as u32) as i32) == x) by (bit_vector);
    vstd::utf8::char_is_scalar(c);
    vstd::utf8::char_u32_cast(c, c as u32);
}

/// The layout of a payload: its header fields, then the cell bytes.
proof fn lemma_payload_layout(time_ms: u64, width: i32, height: i32, cells: Seq<FrameCell>)
    ensures
        ({
            let d = payload_bytes(time_ms, width, height, cells);
            &&& d.len() == 20 + 24 * cells.len()
            &&& d.subrange(0, 4) == le32((time_ms & 0xffff_ffff) as u32)
            &&& d.subrange(4, 8) == le32((time_ms >> 32u64) as u32)
            &&& d.subrange(8, 12) == le32(width as u32)
            &&& d.subrange(12, 16) == le32(height as u32)
            &&& d.subrange(16, 20) == le32(cells.len() as u32)
            &&& forall|j: int| 0 <= j < 24 * cells.len() ==> #[trigger] d[20 + j] == cells_bytes(cells)[j]
        }),
{
    let d = payload_bytes(time_ms, width, height, cells);
    assert(d.subrange(0, 4) =~= le32((time_ms & 0xffff_ffff) as u32));
    assert(d.subrange(4, 8) =~= le32((time_ms >> 32u64) as u32));
    assert(d.subrange(8, 12) =~= le32(width as u32));
    assert(d.subrange(12, 16) =~= le32(height as u32));
    assert(d.subrange(16, 20) =~= le32(cells.len() as u32));
}

/// The six little-endian words of a cell's bytes read back as its fields.
proof fn lemma_cell_words(d: Seq<u8>, o: int, fc: FrameCell)
    requires
        0 <= o,
        o + 24 <= d.len(),
        forall|k: int| 0 <= k < 24 ==> #[trigger] d[o + k] == cell_bytes(fc)[k],
    ensures
        cell_at(d, o) == fc,
{
    let cb = cell_bytes(fc);
    assert(d.subrange(o, o + 4) =~= le32(fc.pos.x as u32)) by {
        assert(d[o + 0] == cb[0] && d[o + 1] == cb[1] && d[o + 2] == cb[2] && d[o + 3] == cb[3]);
    }
    lemma_le32_round_trip(d, o, fc.pos.x as u32);
    assert(d.subrange(o + 4, o + 8) =~= le32(fc.pos.y as u32)) by {
        assert(d[o + 4] == cb[4] && d[o + 5] == cb[5] && d[o + 6] == cb[6] && d[o + 7] == cb[7]);
    }
    lemma_le32_round_trip(d, o + 4, fc.pos.y as u32);
    assert(d.subrange(o + 8, o + 12) =~= le32(fc.cell.ch as u32)) by {
        assert(d[o + 8] == cb[8] && d[o + 9] == cb[9] && d[o + 10] == cb[10] && d[o + 11] == cb[11]);
    }
    lemma_le32_round_trip(d, o + 8, fc.cell.ch as u32);
    assert(d.subrange(o + 12, o + 16) =~= le32(fc.cell.style.fg.0)) by {
        assert(d[o + 12] == cb[12] && d[o + 13] == cb[13] && d[o + 14] == cb[14] && d[o + 15]
            == cb[15]);
    }
    lemma_le32_round_trip(d, o + 12, fc.cell.style.fg.0);
    assert(d.subrange(o + 16, o + 20) =~= le32(fc.cell.style.bg.0)) by {
        assert(d[o + 16] == cb[16] && d[o + 17] == cb[17] && d[o + 18] == cb[18] && d[o + 19]
            == cb[19]);
    }
    lemma_le32_round_trip(d, o + 16, fc.cell.style.bg.0);
    assert(d.subrange(o + 20, o + 24) =~= le32(fc.cell.style.attrs.0)) by {
        assert(d[o + 20] == cb[20] && d[o + 21] == cb[21] && d[o + 22] == cb[22] && d[o + 23]
            == cb[23]);
    }
    lemma_le32_round_trip(d, o + 20, fc.cell.style.attrs.0);
    lemma_bits_round_trip(0, fc.pos.x, fc.cell.ch);
    lemma_bits_round_trip(0, fc.pos.y, fc.cell.ch);
}

proof fn lemma_cell_round_trip(d: Seq<u8>, cells: Seq<FrameCell>, i: int)
    requires
        d.len() == 20 + 24 * cells.len(),
        forall|j: int| 0 <= j < 24 * cells.len() ==> #[trigger] d[20 + j] == cells_bytes(cells)[j],
        0 <= i < cells.len(),
    ensures
        cell_at(d, 20 + 24 * i) == cells[i],
{
    let n = cells.len();
    let o = 20 + 24 * i;
    assert(o + 24 <= d.len()) by (nonlinear_arith)
        requires
            o == 20 + 24 * i,
            0 <= i < n,
            d.len() == 20 + 24 * n,
    ;
    assert forall|k: int| 0 <= k < 24 implies #[trigger] d[o + k] == cell_bytes(cells[i])[k] by {
        assert((24 * i + k) / 24 == i && (24 * i + k) % 24 == k && 24 * i + k < 24 * n)
            by (nonlinear_arith)
            requires
                0 <= k < 24,
                0 <= i < n,
        ;
        assert(d[20 + (24 * i + k)] == cells_bytes(cells)[24 * i + k]);
    }
    lemma_cell_words(d, o, cells[i]);
}

/// Decoding the payload of an encoded frame gives the frame back: its time,
/// size and every cell.
pub proof fn lemma_frame_round_trip(time_ms: u64, width: i32, height: i32, cells: Seq<FrameCell>)
    requires
        20 + 24 * cells.len() <= u32::MAX,
    ensures
        parse_payload(payload_bytes(time_ms, width, height, cells)) == Ok::<
            (u64, i32, i32, Seq<FrameCell>),
            FrameParseError,
        >((time_ms, width, height, cells)),
{
    let d = payload_bytes(time_ms, width, height, cells);
    let n = cells.len();
    lemma_payload_layout(time_ms, width, height, cells);
    lemma_le32_round_trip(d, 0, (time_ms & 0xffff_ffff) as u32);
    lemma_le32_round_trip(d, 4, (time_ms >> 32u64) as u32);
    lemma_le32_round_trip(d, 8, width as u32);
    lemma_le32_round_trip(d, 12, height as u32);
    lemma_le32_round_trip(d, 16, n as u32);
    lemma_bits_round_trip(time_ms, width, ' ');
    lemma_bits_round_trip(time_ms, height, ' ');
    let parsed = Seq::new(n as nat, |i: int| cell_at(d, 20 + 24 * i));
    assert forall|i: int| 0 <= i < n implies #[trigger] parsed[i] == cells[i] by {
        lemma_cell_round_trip(d, cells, i);
    }
    assert(parsed =~= cells);
}

// ---------------------------------------------------------------------------
// Encoder / decoder over byte streams
// ---------------------------------------------------------------------------

/// The standard library's I/O error.
#[verifier::external_type_specification]
#[verifier::external_body]
pub struct ExIoError(io::Error);

/// Writes all of `bytes` (`Write::write_all`); whether it succeeds depends
/// on the writer.
#[verifier::external_body]
fn write_all_bytes<W: Write>(w: &mut W, bytes: &[u8]) -> io::Result<()> {
    w.write_all(bytes)
}

/// Flushes the writer (`Write::flush`).
#[verifier::external_body]
fn flush_writer<W: Write>(w: &mut W) -> io::Result<()> {
    w.flush()
}

/// Fills `buf` from the reader (`Read::read_exact`); on success the length
/// of `buf` is unchanged.
#[verifier::external_body]
fn read_exact_bytes<R: Read>(r: &mut R, buf: &mut Vec<u8>) -> (res: io::Result<()>)
    ensures
        final(buf)@.len() == old(buf)@.len(),
{
    r.read_exact(buf.as_mut_slice())
}

/// Whether the error reports an unexpected end of input (`Error::kind`).
#[verifier::external_body]
fn is_unexpected_eof(e: &io::Error) -> bool {
    e.kind() == io::ErrorKind::UnexpectedEof
}

/// An invalid-data I/O error (`io::Error::new`) saying that a frame's
/// length prefix is below the header's size.
#[verifier::external_body]
fn too_small_error() -> io::Error {
    io::Error::new(io::ErrorKind::InvalidData, "frame too small")
}

/// An invalid-data I/O error (`io::Error::new`) saying that a frame's
/// payload holds `got` bytes where its cell count asks for `expected`.
#[verifier::external_body]
fn size_mismatch_error(expected: u64, got: u64) -> io::Error {
    io::Error::new(io::ErrorKind::InvalidData, format!("frame size mismatch: expected {} bytes, got {}", expected, got))
}

/// The I/O error that reports why a frame could not be decoded.
fn invalid_data(e: FrameParseError) -> io::Error {
    match e {
        FrameParseError::TooSmall => too_small_error(),
        FrameParseError::SizeMismatch { expected, got } => size_mismatch_error(expected, got),
    }
}

/// The frame held by a payload announced with length `total_len`: a
/// length below the header's size is too small, else the payload is parsed
/// as [`parse_frame_payload`] does.
pub fn frame_from_payload(total_len: usize, data: &[u8]) -> (r: Result<Frame, FrameParseError>)
    ensures
        total_len < HEADER_SIZE ==> r == Err::<Frame, FrameParseError>(FrameParseError::TooSmall),
        total_len >= HEADER_SIZE ==> match (r, parse_payload(data@)) {
            (Ok(f), Ok((t, w, h, cells))) => f.time_ms == t && f.width == w && f.height == h && f.cells@ == cells,
            (Err(e), Err(e2)) => e == e2,
            _ => false,
        },
{
    if total_len < HEADER_SIZE {
        return Err(FrameParseError::TooSmall);
    }
    parse_frame_payload(data)
}

/// Whether `f` is the frame that the payload bytes `d` decode to.
pub open spec fn payload_of(d: Seq<u8>, f: Frame) -> bool {
    parse_payload(d) matches Ok((t, w, h, cells)) && f.time_ms == t && f.width == w && f.height == h && f.cells@ == cells
}

/// Whether `f` is what some payload of at least a header's size decodes to.
pub open spec fn decoded_frame(f: Frame) -> bool {
    exists|d: Seq<u8>| d.len() >= HEADER_SIZE && #[trigger] payload_of(d, f)
}

/// Encodes [`Frame`]s to a byte-oriented writer.
pub struct FrameEncoder<W> {
    writer: W,
}

impl<W: Write> FrameEncoder<W> {
    /// Wrap a writer.
    pub fn new(writer: W) -> (e: Self) {
        FrameEncoder { writer }
    }

    /// Write a single frame: exactly the bytes of [`encode_frame_bytes`].
    pub fn encode(&mut self, frame: &Frame) -> io::Result<()>
        requires
            20 + 24 * frame.cells@.len() <= u32::MAX,
    {
        let bytes = encode_frame_bytes(frame);
        write_all_bytes(&mut self.writer, bytes.as_slice())
    }

    /// Flush the underlying writer.
    pub fn flush(&mut self) -> io::Result<()> {
        flush_writer(&mut self.writer)
    }

    /// Consume the encoder, returning the inner writer.
    pub fn into_inner(self) -> W {
        self.writer
    }
}

/// Decodes [`Frame`]s from a byte-oriented reader.
pub struct FrameDecoder<R> {
    reader: R,
}

impl<R: Read> FrameDecoder<R> {
    /// Wrap a reader.
    pub fn new(reader: R) -> Self {
        FrameDecoder { reader }
    }

    /// Read the next frame, or `None` at the end of the input.
    ///
    /// The frame is decoded by [`parse_frame_payload`] from the bytes
    /// following its length prefix; a prefix below the header size, or a
    /// payload whose size does not match its cell count, gives an
    /// invalid-data error.
    pub fn decode(&mut self) -> (res: io::Result<Option<Frame>>)
        ensures
            res matches Ok(Some(f)) ==> decoded_frame(f),
    {
        let mut len_buf: Vec<u8> = vec![0u8; 4];
        match read_exact_bytes(&mut self.reader, &mut len_buf) {
            Ok(()) => {},
            Err(e) => {
                if is_unexpected_eof(&e) {
                    return Ok(None);
                }
                return Err(e);
            },
        }
        let total_len: usize = read_u32_le(len_buf.as_slice(), 0) as usize;
        if total_len < HEADER_SIZE {
            return Err(invalid_data(FrameParseError::TooSmall));
        }
        let mut data: Vec<u8> = vec![0u8; total_len];
        match read_exact_bytes(&mut self.reader, &mut data) {
            Ok(()) => {},
            Err(e) => {
                return Err(e);
            },
        }
        match frame_from_payload(total_len, data.as_slice()) {
            Ok(f) => {
                let r: io::Result<Option<Frame>> = Ok(Some(f));
                proof {
                    assert(data@.len() >= HEADER_SIZE && payload_of(data@, f));
                    assert(decoded_frame(f));
                }
                r
            },
            Err(e) => Err(invalid_data(e)),
        }
    }

    /// Consume the decoder, returning the inner reader.
    pub fn into_inner(self) -> R {
        self.reader
    }
}

} // verus!
