//! The [`Grid`] type: a 2D grid of [`Cell`]s with slice semantics.
//!
//! A `Grid` is a *view* into a shared backing buffer. Cloning a `Grid` yields
//! another view of the same storage. [`Grid::slice`] gives sub-grid views.
//! All public methods use coordinates relative to the view's origin.
//!
//! The buffer is shared through an invariant cell, so what a read returns
//! depends on every view's writes: the contracts here speak of the view's
//! bounds, of where reads and writes land, and of what out-of-view reads
//! give, not of the stored contents.
use vstd::prelude::*;
use vstd::cell::invcell::InvCell;
use vstd::predicate::Predicate;
use vstd::std_specs::iter::IteratorSpec;
use std::rc::Rc;

use crate::cell::Cell;
use crate::geom::{Point, Range, fits_i32, rg, pt, min_int, max_int};
use crate::util::string_push;

verus! {

/// The storage of a grid: a row-major vector of cells.
pub struct GridBuffer {
    cells: Vec<Cell>,
    width: usize,
    height: usize,
}

impl GridBuffer {
    pub closed spec fn wf(&self) -> bool {
        self.cells.len() == self.width * self.height
    }

    fn empty() -> (b: GridBuffer)
        ensures
            b.wf(),
    {
        GridBuffer { cells: Vec::new(), width: 0, height: 0 }
    }

    fn new(width: usize, height: usize) -> (b: GridBuffer)
        requires
            width * height <= usize::MAX,
        ensures
            b.wf(),
            b.width == width,
            b.height == height,
    {
        GridBuffer { cells: vec![Cell::blank(); width * height], width, height }
    }

    /// Flat index of an absolute position, if it lies inside the buffer.
    fn index(&self, x: i32, y: i32) -> (r: Option<usize>)
        requires
            self.wf(),
        ensures
            r matches Some(i) ==> i < self.cells.len(),
            r is Some <==> (0 <= x && 0 <= y && x < self.width && y < self.height),
    {
        if x >= 0 && y >= 0 && (x as usize) < self.width && (y as usize) < self.height {
            proof {
                lemma_index_in_bounds(x as int, y as int, self.width as int, self.height as int);
            }
            Some((y as usize) * self.width + (x as usize))
        } else {
            None
        }
    }
}

/// A row-major index of a position inside a `w` by `h` buffer lies inside it.
pub proof fn lemma_index_in_bounds(x: int, y: int, w: int, h: int)
    requires
        0 <= x < w,
        0 <= y < h,
    ensures
        0 <= y * w + x < w * h,
{
    assert(y * w + x < w * h) by (nonlinear_arith)
        requires
            0 <= x < w,
            0 <= y < h,
    ;
    assert(0 <= y * w) by (nonlinear_arith)
        requires
            0 <= y,
            0 <= w,
    ;
}

/// The well-formedness of buffers kept in a grid's shared cell.
pub struct BufferWf;

impl Predicate<GridBuffer> for BufferWf {
    open spec fn predicate(&self, b: GridBuffer) -> bool {
        b.wf()
    }
}

/// Shares the buffer cell (`Rc::clone`); the copy points to the same cell.
#[verifier::external_body]
fn share_buffer(b: &Rc<InvCell<GridBuffer, BufferWf>>) -> (r: Rc<InvCell<GridBuffer, BufferWf>>)
    ensures
        r == *b,
{
    Rc::clone(b)
}

/// The start of a slice on one axis: the range's start clamped to
/// `0..=size` (a negative size counting as zero).
pub open spec fn slice_lo(start: int, size: int) -> int {
    min_int(max_int(start, 0), max_int(size, 0))
}

/// The end of a slice on one axis: the range's end clamped to the slice's
/// start and the size.
pub open spec fn slice_hi(start: int, end: int, size: int) -> int {
    max_int(min_int(end, max_int(size, 0)), slice_lo(start, size))
}

/// The bounds of the view that `Grid::slice` makes of range `r` (relative)
/// in a view with bounds `b`: `r` intersected with the view, an empty
/// intersection giving an empty view.
pub open spec fn slice_bounds(b: Range, r: Range) -> Range {
    rg(
        slice_lo(r.min.x as int, b.spec_width()) + b.min.x,
        slice_lo(r.min.y as int, b.spec_height()) + b.min.y,
        slice_hi(r.min.x as int, r.max.x as int, b.spec_width()) + b.min.x,
        slice_hi(r.min.y as int, r.max.y as int, b.spec_height()) + b.min.y,
    )
}

/// Whether a slice of range `r` can be computed in `i32` in a view with
/// bounds `b`.
pub open spec fn slice_fits(b: Range, r: Range) -> bool {
    &&& fits_i32(slice_lo(r.min.x as int, b.spec_width()) + b.min.x)
    &&& fits_i32(slice_lo(r.min.y as int, b.spec_height()) + b.min.y)
    &&& fits_i32(slice_hi(r.min.x as int, r.max.x as int, b.spec_width()) + b.min.x)
    &&& fits_i32(slice_hi(r.min.y as int, r.max.y as int, b.spec_height()) + b.min.y)
    &&& slice_bounds(b, r).dims_sym()
}

/// A slice of a range of moderate coordinates in a view of moderate bounds
/// fits, and lies within the view.
pub proof fn lemma_slice_small(b: Range, r: Range)
    requires
        0 <= b.min.x <= 0x2000_0000,
        0 <= b.min.y <= 0x2000_0000,
        -0x1000_0000 <= b.max.x <= 0x1000_0000,
        -0x1000_0000 <= b.max.y <= 0x1000_0000,
        -0x1000_0000 <= r.min.x <= 0x1000_0000,
        -0x1000_0000 <= r.min.y <= 0x1000_0000,
        -0x1000_0000 <= r.max.x <= 0x1000_0000,
        -0x1000_0000 <= r.max.y <= 0x1000_0000,
    ensures
        slice_fits(b, r),
        b.spec_width() >= 0 && 0 <= r.min.x <= r.max.x <= b.spec_width() ==> slice_bounds(b, r).min.x == r.min.x + b.min.x
            && slice_bounds(b, r).max.x == r.max.x + b.min.x,
        b.spec_height() >= 0 && 0 <= r.min.y <= r.max.y <= b.spec_height() ==> slice_bounds(b, r).min.y == r.min.y
            + b.min.y && slice_bounds(b, r).max.y == r.max.y + b.min.y,
        slice_bounds(b, r).min.x >= b.min.x,
        slice_bounds(b, r).min.y >= b.min.y,
        slice_bounds(b, r).max.x <= max_int(b.max.x as int, b.min.x as int),
        slice_bounds(b, r).max.y <= max_int(b.max.y as int, b.min.y as int),
        slice_bounds(b, r).spec_width() >= 0,
        slice_bounds(b, r).spec_height() >= 0,
{
}

/// The span `start..end` on an axis of size `size`, clamped to it: both
/// ends within `0..=size` (a negative size counting as zero), the end no
/// smaller than the start.
pub fn clamp_span(start: i32, end: i32, size: i32) -> (s: (i32, i32))
    ensures
        s.0 == slice_lo(start as int, size as int),
        s.1 == slice_hi(start as int, end as int, size as int),
{
    let sz: i32 = if size >= 0 { size } else { 0 };
    let lo: i32 = if start < 0 { 0 } else if start > sz { sz } else { start };
    let hi0: i32 = if end > sz { sz } else { end };
    let hi: i32 = if hi0 < lo { lo } else { hi0 };
    (lo, hi)
}

/// A slice of a range starting inside a non-negative view fits, and lies
/// within the view with non-negative extents.
pub proof fn lemma_slice_within(b: Range, r: Range)
    requires
        b.dims_sym(),
        b.min.x >= 0,
        b.min.y >= 0,
        b.spec_width() >= 0,
        b.spec_height() >= 0,
        0 <= r.min.x <= b.spec_width(),
        0 <= r.min.y <= b.spec_height(),
        r.min.x <= r.max.x,
        r.min.y <= r.max.y,
    ensures
        slice_fits(b, r),
        slice_bounds(b, r).min.x >= b.min.x,
        slice_bounds(b, r).min.y >= b.min.y,
        slice_bounds(b, r).max.x <= b.max.x,
        slice_bounds(b, r).max.y <= b.max.y,
        slice_bounds(b, r).spec_width() >= 0,
        slice_bounds(b, r).spec_height() >= 0,
{
}

/// A 2D grid of [`Cell`]s backed by shared storage.
///
/// Cloning produces another view into the same buffer (slice semantics).
/// All position arguments are relative to this grid view's origin.
pub struct Grid {
    buffer: Rc<InvCell<GridBuffer, BufferWf>>,
    bounds: Range,
}

impl View for Grid {
    type V = Range;

    /// The bounds of the view in the buffer (absolute coordinates).
    closed spec fn view(&self) -> Range {
        self.bounds
    }
}

/// The index of the newline that ends line `y` of a text whose lines are
/// `w` characters long.
pub open spec fn line_end(y: int, w: int) -> int {
    y * (w + 1) + w
}

impl Grid {
    #[verifier::type_invariant]
    closed spec fn inv(&self) -> bool {
        &&& self.bounds.dims_sym()
        &&& self.bounds.min.x >= 0
        &&& self.bounds.min.y >= 0
    }

    /// Whether relative position `p` can be turned into an absolute one.
    pub open spec fn rel_fits(&self, p: Point) -> bool {
        fits_i32(p.x + self@.min.x) && fits_i32(p.y + self@.min.y)
    }

    /// Whether relative position `p` lies inside the view.
    pub open spec fn has(&self, p: Point) -> bool {
        0 <= p.x < self@.spec_width() && 0 <= p.y < self@.spec_height()
    }

    /// The relative range of the view: (0,0) to its size.
    pub open spec fn rel_range(&self) -> Range {
        rg(
            min_int(self@.spec_width(), 0),
            min_int(self@.spec_height(), 0),
            max_int(self@.spec_width(), 0),
            max_int(self@.spec_height(), 0),
        )
    }

    /// Create a new grid of the given dimensions, filled with default cells.
    pub fn new(width: i32, height: i32) -> (g: Grid)
        requires
            max_int(width as int, 0) * max_int(height as int, 0) <= usize::MAX,
        ensures
            g@ == rg(0, 0, max_int(width as int, 0), max_int(height as int, 0)),
    {
        let w: i32 = if width > 0 { width } else { 0 };
        let h: i32 = if height > 0 { height } else { 0 };
        let buf = GridBuffer::new(w as usize, h as usize);
        Grid {
            buffer: Rc::new(InvCell::new(buf, Ghost(BufferWf))),
            bounds: Range::new(0, 0, w, h),
        }
    }

    /// The bounding range of this view within the underlying buffer.
    pub fn bounds(&self) -> (r: Range)
        ensures
            r == self@,
            r.dims_sym(),
            r.min.x >= 0,
            r.min.y >= 0,
    {
        proof {
            use_type_invariant(self);
        }
        self.bounds
    }

    /// The range with min at (0,0) and max at the size.
    pub fn range_(&self) -> (r: Range)
        ensures
            r == self.rel_range(),
    {
        proof {
            use_type_invariant(self);
        }
        Range::new(0, 0, self.bounds.width(), self.bounds.height())
    }

    /// Size of the grid as a `Point`.
    pub fn size(&self) -> (p: Point)
        ensures
            p.x == self@.spec_width(),
            p.y == self@.spec_height(),
    {
        proof {
            use_type_invariant(self);
        }
        self.bounds.size()
    }

    /// Width.
    pub fn width(&self) -> (w: i32)
        ensures
            w == self@.spec_width(),
    {
        proof {
            use_type_invariant(self);
        }
        self.bounds.width()
    }

    /// Height.
    pub fn height(&self) -> (h: i32)
        ensures
            h == self@.spec_height(),
    {
        proof {
            use_type_invariant(self);
        }
        self.bounds.height()
    }

    /// Whether relative point `p` is inside this grid.
    pub fn contains(&self, p: Point) -> (b: bool)
        requires
            self.rel_fits(p),
        ensures
            b == self.has(p),
    {
        let q = Point::new(p.x + self.bounds.min.x, p.y + self.bounds.min.y);
        self.bounds.contains(q)
    }

    /// A sub-grid view of the relative range `rg`, clamped to this grid's
    /// size. The returned grid shares the same backing buffer.
    pub fn slice(&self, r: Range) -> (g: Grid)
        requires
            slice_fits(self@, r),
        ensures
            g@ == slice_bounds(self@, r),
            g@.min.x >= 0,
            g@.min.y >= 0,
    {
        proof {
            use_type_invariant(self);
        }
        let (min_x, max_x) = clamp_span(r.min.x, r.max.x, self.size().x);
        let (min_y, max_y) = clamp_span(r.min.y, r.max.y, self.size().y);
        let abs_min = Point::new(min_x + self.bounds.min.x, min_y + self.bounds.min.y);
        let abs_max = Point::new(max_x + self.bounds.min.x, max_y + self.bounds.min.y);
        Grid { buffer: share_buffer(&self.buffer), bounds: Range { min: abs_min, max: abs_max } }
    }

    /// Read the cell at relative position `p`; the default cell when `p`
    /// is outside the view.
    pub fn at(&self, p: Point) -> (c: Cell)
        requires
            self.rel_fits(p),
        ensures
            !self.has(p) ==> c == Cell::spec_default(),
    {
        let q = Point::new(p.x + self.bounds.min.x, p.y + self.bounds.min.y);
        if !self.bounds.contains(q) {
            return Cell::blank();
        }
        let buf = self.buffer.replace(GridBuffer::empty());
        let c = match buf.index(q.x, q.y) {
            Some(i) => buf.cells[i],
            None => Cell::blank(),
        };
        let _ = self.buffer.replace(buf);
        c
    }

    /// Set the cell at relative position `p`. No-op if `p` is outside the
    /// view.
    pub fn set(&self, p: Point, cell: Cell)
        requires
            self.rel_fits(p),
    {
        let q = Point::new(p.x + self.bounds.min.x, p.y + self.bounds.min.y);
        if !self.bounds.contains(q) {
            return;
        }
        let mut buf = self.buffer.replace(GridBuffer::empty());
        match buf.index(q.x, q.y) {
            Some(i) => {
                buf.cells.set(i, cell);
            },
            None => {},
        }
        let _ = self.buffer.replace(buf);
    }

    /// Fill every cell of the view with `cell`.
    pub fn fill(&self, cell: Cell) {
        proof {
            use_type_invariant(self);
        }
        if self.bounds.is_empty() {
            return;
        }
        let mut buf = self.buffer.replace(GridBuffer::empty());
        let mut y: i32 = self.bounds.min.y;
        while y < self.bounds.max.y
            invariant
                buf.wf(),
                self.bounds.min.y <= y <= self.bounds.max.y,
                !self.bounds.spec_is_empty(),
            decreases self.bounds.max.y - y,
        {
            let mut x: i32 = self.bounds.min.x;
            while x < self.bounds.max.x
                invariant
                    buf.wf(),
                    self.bounds.min.y <= y < self.bounds.max.y,
                    !self.bounds.spec_is_empty(),
                    self.bounds.min.x <= x <= self.bounds.max.x,
                decreases self.bounds.max.x - x,
            {
                match buf.index(x, y) {
                    Some(i) => {
                        buf.cells.set(i, cell);
                    },
                    None => {},
                }
                x = x + 1;
            }
            y = y + 1;
        }
        let _ = self.buffer.replace(buf);
    }

    /// Apply `f` to every cell of the view, replacing each with the return
    /// value. The callback receives relative coordinates.
    pub fn map_cells<F: Fn(Point, Cell) -> Cell>(&self, f: F)
        requires
            forall|p: Point, c: Cell| f.requires((p, c)),
    {
        proof {
            use_type_invariant(self);
        }
        if self.bounds.is_empty() {
            return;
        }
        let mut buf = self.buffer.replace(GridBuffer::empty());
        let min = self.bounds.min;
        let mut y: i32 = self.bounds.min.y;
        while y < self.bounds.max.y
            invariant
                buf.wf(),
                min == self.bounds.min,
                self.bounds.dims_fit(),
                forall|p: Point, c: Cell| f.requires((p, c)),
                self.bounds.min.y <= y <= self.bounds.max.y,
                !self.bounds.spec_is_empty(),
            decreases self.bounds.max.y - y,
        {
            let mut x: i32 = self.bounds.min.x;
            while x < self.bounds.max.x
                invariant
                    buf.wf(),
                    min == self.bounds.min,
                    self.bounds.dims_fit(),
                    forall|p: Point, c: Cell| f.requires((p, c)),
                    self.bounds.min.y <= y < self.bounds.max.y,
                    !self.bounds.spec_is_empty(),
                    self.bounds.min.x <= x <= self.bounds.max.x,
                decreases self.bounds.max.x - x,
            {
                match buf.index(x, y) {
                    Some(i) => {
                        let rel = Point::new(x - min.x, y - min.y);
                        let nc = f(rel, buf.cells[i]);
                        buf.cells.set(i, nc);
                    },
                    None => {},
                }
                x = x + 1;
            }
            y = y + 1;
        }
        let _ = self.buffer.replace(buf);
    }
}


impl Grid {
    /// Copy cells from `src` into `self`, aligning origins. Returns the size
    /// actually copied: the minimum of both grids' sizes on each axis.
    pub fn copy_from(&self, src: &Grid) -> (copied: Point)
        ensures
            copied == pt(
                min_int(src@.spec_width(), self@.spec_width()),
                min_int(src@.spec_height(), self@.spec_height()),
            ),
    {
        proof {
            use_type_invariant(self);
            use_type_invariant(src);
        }
        let sw: i32 = if src.bounds.width() <= self.bounds.width() {
            src.bounds.width()
        } else {
            self.bounds.width()
        };
        let sh: i32 = if src.bounds.height() <= self.bounds.height() {
            src.bounds.height()
        } else {
            self.bounds.height()
        };
        // Read the source first, so that overlapping views of one buffer
        // copy what the source held before the copy.
        let mut tmp: Vec<Option<Cell>> = Vec::new();
        let sbuf = src.buffer.replace(GridBuffer::empty());
        let mut dy: i32 = 0;
        while dy < sh
            invariant
                sbuf.wf(),
                src.bounds.dims_fit(),
                src.bounds.min.x >= 0,
                src.bounds.min.y >= 0,
                sh <= src.bounds.spec_height(),
                sw <= src.bounds.spec_width(),
                0 <= dy,
                dy <= sh || dy == 0,
            decreases sh - dy,
        {
            let mut dx: i32 = 0;
            while dx < sw
                invariant
                    sbuf.wf(),
                    src.bounds.dims_fit(),
                    src.bounds.min.x >= 0,
                    src.bounds.min.y >= 0,
                    sh <= src.bounds.spec_height(),
                    sw <= src.bounds.spec_width(),
                    0 <= dy < sh,
                    0 <= dx,
                    dx <= sw || dx == 0,
                decreases sw - dx,
            {
                let sx: i32 = src.bounds.min.x + dx;
                let sy: i32 = src.bounds.min.y + dy;
                match sbuf.index(sx, sy) {
                    Some(i) => tmp.push(Some(sbuf.cells[i])),
                    None => tmp.push(None),
                }
                dx = dx + 1;
            }
            dy = dy + 1;
        }
        let _ = src.buffer.replace(sbuf);
        let mut dbuf = self.buffer.replace(GridBuffer::empty());
        let mut k: usize = 0;
        let mut dy: i32 = 0;
        while dy < sh
            invariant
                dbuf.wf(),
                self.bounds.dims_fit(),
                self.bounds.min.x >= 0,
                self.bounds.min.y >= 0,
                sh <= self.bounds.spec_height(),
                sw <= self.bounds.spec_width(),
                0 <= dy,
                dy <= sh || dy == 0,
            decreases sh - dy,
        {
            let mut dx: i32 = 0;
            while dx < sw
                invariant
                    dbuf.wf(),
                    self.bounds.dims_fit(),
                    self.bounds.min.x >= 0,
                    self.bounds.min.y >= 0,
                    sh <= self.bounds.spec_height(),
                    sw <= self.bounds.spec_width(),
                    0 <= dy < sh,
                    0 <= dx,
                    dx <= sw || dx == 0,
                decreases sw - dx,
            {
                let x: i32 = self.bounds.min.x + dx;
                let y: i32 = self.bounds.min.y + dy;
                if k < tmp.len() {
                    match tmp[k] {
                        Some(c) => match dbuf.index(x, y) {
                            Some(i) => {
                                dbuf.cells.set(i, c);
                            },
                            None => {},
                        },
                        None => {},
                    }
                }
                if k < usize::MAX {
                    k = k + 1;
                }
                dx = dx + 1;
            }
            dy = dy + 1;
        }
        let _ = self.buffer.replace(dbuf);
        Point::new(sw, sh)
    }

    /// Resize the view to the given dimensions.
    ///
    /// A non-positive dimension empties the view (its max becomes its min).
    /// When the underlying buffer is large enough the view is just widened;
    /// otherwise a new buffer of the requested size is made, the overlapping
    /// cells are copied into it, new cells are default, and the view covers
    /// the whole new buffer.
    pub fn resize(&mut self, width: i32, height: i32)
        requires
            width > 0 && height > 0 ==> width * height <= usize::MAX,
            width > 0 && height > 0 ==> fits_i32(old(self)@.min.x + width)
                && fits_i32(old(self)@.min.y + height),
        ensures
            ({
                let o = old(self)@;
                let n = final(self)@;
                if o.spec_width() == width && o.spec_height() == height {
                    n == o
                } else if width <= 0 || height <= 0 {
                    n == (Range { min: o.min, max: o.min })
                } else {
                    (n == rg(o.min.x as int, o.min.y as int, o.min.x + width, o.min.y + height)
                        || n == rg(0, 0, width as int, height as int))
                }
            }),
    {
        proof {
            use_type_invariant(&*self);
        }
        let ow: i32 = self.bounds.width();
        let oh: i32 = self.bounds.height();
        if ow == width && oh == height {
            return;
        }
        if width <= 0 || height <= 0 {
            self.bounds = Range { min: self.bounds.min, max: self.bounds.min };
            return;
        }
        let new_w: usize = width as usize;
        let new_h: usize = height as usize;
        let old = self.buffer.replace(GridBuffer::empty());
        let min_x: usize = self.bounds.min.x as usize;
        let min_y: usize = self.bounds.min.y as usize;
        if new_w <= old.width && min_x <= old.width - new_w && new_h <= old.height && min_y
            <= old.height - new_h {
            let _ = self.buffer.replace(old);
            self.bounds = Range { min: self.bounds.min, max: self.bounds.min.shift(width, height) };
            return;
        }
        let mut nb = GridBuffer::new(new_w, new_h);
        let copy_w: i32 = if ow <= width { ow } else { width };
        let copy_h: i32 = if oh <= height { oh } else { height };
        let mut dy: i32 = 0;
        while dy < copy_h
            invariant
                old.wf(),
                nb.wf(),
                nb.width == new_w,
                nb.height == new_h,
                new_w == width,
                new_h == height,
                self.bounds.dims_fit(),
                self.bounds.min.x >= 0,
                self.bounds.min.y >= 0,
                copy_h <= height,
                copy_w <= width,
                copy_h <= self.bounds.spec_height(),
                copy_w <= self.bounds.spec_width(),
                0 <= dy,
                dy <= copy_h || dy == 0,
            decreases copy_h - dy,
        {
            let mut dx: i32 = 0;
            while dx < copy_w
                invariant
                    old.wf(),
                    nb.wf(),
                    nb.width == new_w,
                    nb.height == new_h,
                    new_w == width,
                    new_h == height,
                    self.bounds.dims_fit(),
                    self.bounds.min.x >= 0,
                    self.bounds.min.y >= 0,
                    copy_h <= height,
                    copy_w <= width,
                    copy_h <= self.bounds.spec_height(),
                    copy_w <= self.bounds.spec_width(),
                    0 <= dy < copy_h,
                    0 <= dx,
                    dx <= copy_w || dx == 0,
                decreases copy_w - dx,
            {
                let sx: i32 = self.bounds.min.x + dx;
                let sy: i32 = self.bounds.min.y + dy;
                match (old.index(sx, sy), nb.index(dx, dy)) {
                    (Some(si), Some(di)) => {
                        let c = old.cells[si];
                        nb.cells.set(di, c);
                    },
                    _ => {},
                }
                dx = dx + 1;
            }
            dy = dy + 1;
        }
        let _ = self.buffer.replace(old);
        self.buffer = Rc::new(InvCell::new(nb, Ghost(BufferWf)));
        self.bounds = Range::new(0, 0, width, height);
    }

    /// The cells of the view with their relative positions, row-major.
    pub fn cells(&self) -> (v: Vec<(Point, Cell)>)
        requires
            self.rel_range().spec_len() <= usize::MAX,
        ensures
            v@.len() == self.rel_range().points_seq().len(),
            forall|i: int| 0 <= i < v@.len() ==> #[trigger] v@[i].0 == self.rel_range().points_seq()[i],
    {
        proof {
            use_type_invariant(self);
        }
        let r = self.range_();
        let pts = r.points();
        let mut v: Vec<(Point, Cell)> = Vec::new();
        let mut i: usize = 0;
        while i < pts.len()
            invariant
                pts@ == r.points_seq(),
                r == self.rel_range(),
                self.bounds.dims_sym(),
                self.bounds.min.x >= 0,
                self.bounds.min.y >= 0,
                i <= pts.len(),
                v@.len() == i,
                forall|j: int| 0 <= j < i ==> #[trigger] v@[j].0 == pts@[j],
            decreases pts.len() - i,
        {
            let p = pts[i];
            proof {
                lemma_points_in_range(r, i as int);
            }
            let c = self.at(p);
            v.push((p, c));
            i = i + 1;
        }
        v
    }

    /// Row-major iterator over `(Point, Cell)` pairs with relative
    /// coordinates.
    pub fn iter(&self) -> (it: std::vec::IntoIter<(Point, Cell)>)
        requires
            self.rel_range().spec_len() <= usize::MAX,
        ensures
            it.remaining().len() == self.rel_range().points_seq().len(),
            forall|i: int| 0 <= i < it.remaining().len() ==>
                #[trigger] it.remaining()[i].0 == self.rel_range().points_seq()[i],
    {
        self.cells().into_iter()
    }

    /// Row-major iterator over the relative points of the grid.
    pub fn points(&self) -> (it: std::vec::IntoIter<Point>)
        requires
            self.rel_range().spec_len() <= usize::MAX,
        ensures
            it.remaining() == self.rel_range().points_seq(),
    {
        self.range_().iter()
    }

    /// The characters of the grid, one row per line, each line ended by
    /// a newline.
    pub fn to_string(&self) -> (s: String)
        ensures
            s@.len() == max_int(self@.spec_height(), 0) * (max_int(self@.spec_width(), 0) + 1),
            forall|y: int| 0 <= y < self@.spec_height() ==> #[trigger] s@[line_end(y, max_int(self@.spec_width(), 0))]
                == '\n',
    {
        proof {
            use_type_invariant(self);
        }
        let mut s = String::new();
        let h: i32 = self.bounds.height();
        let w: i32 = self.bounds.width();
        let ghost wn: int = max_int(w as int, 0);
        let mut y: i32 = 0;
        while y < h
            invariant
                self.bounds.dims_fit(),
                self.bounds.min.x >= 0,
                self.bounds.min.y >= 0,
                h == self.bounds.spec_height(),
                w == self.bounds.spec_width(),
                0 <= y,
                y <= h || y == 0,
                wn == max_int(w as int, 0),
                s@.len() == y * (wn + 1),
                forall|yy: int| 0 <= yy < y ==> #[trigger] s@[line_end(yy, wn)] == '\n',
            decreases h - y,
        {
            let ghost s0 = s@;
            let mut x: i32 = 0;
            while x < w
                invariant
                    self.bounds.dims_fit(),
                    self.bounds.min.x >= 0,
                    self.bounds.min.y >= 0,
                    h == self.bounds.spec_height(),
                    w == self.bounds.spec_width(),
                    0 <= y < h,
                    0 <= x,
                    x <= w || x == 0,
                    s@.len() == y * (wn + 1) + x,
                    wn == max_int(w as int, 0),
                    s0.len() == y * (wn + 1),
                    forall|k: int| 0 <= k < s0.len() ==> #[trigger] s@[k] == s0[k],
                decreases w - x,
            {
                let c = self.at(Point::new(x, y));
                string_push(&mut s, c.ch);
                x = x + 1;
            }
            string_push(&mut s, '\n');
            proof {
                assert(x == wn);
                assert(line_end(y as int, wn) == y * (wn + 1) + wn);
                assert((y + 1) * (wn + 1) == y * (wn + 1) + wn + 1) by (nonlinear_arith);
                assert forall|yy: int| 0 <= yy < y + 1 implies #[trigger] s@[line_end(yy, wn)] == '\n' by {
                    if yy < y {
                        assert(line_end(yy, wn) < s0.len()) by (nonlinear_arith)
                            requires
                                0 <= yy < y,
                                wn >= 0,
                                s0.len() == y * (wn + 1),
                                line_end(yy, wn) == yy * (wn + 1) + wn,
                        ;
                        assert(s@[line_end(yy, wn)] == s0[line_end(yy, wn)]);
                    }
                }
            }
            y = y + 1;
        }
        proof {
            assert(y == max_int(h as int, 0));
        }
        s
    }
}

/// A range enumerates as many points as it has cells.
pub proof fn lemma_points_len(r: Range)
    requires
        r.dims_fit(),
    ensures
        r.points_seq().len() == r.spec_len(),
{
    if !r.spec_is_empty() {
        lemma_rows_shape(r, r.spec_height() as nat);
        let w = r.spec_width();
        let h = r.spec_height();
        assert(h * w == w * h) by (nonlinear_arith);
    }
}

/// Every point of a range's row-major enumeration lies in the range.
pub proof fn lemma_points_in_range(r: Range, i: int)
    requires
        0 <= i < r.points_seq().len(),
        r.dims_fit(),
    ensures
        r.spec_contains(r.points_seq()[i]),
        r.points_seq()[i] == pt(r.min.x + i % r.spec_width(), r.min.y + i / r.spec_width()),
{
    let w = r.spec_width();
    let h = r.spec_height();
    lemma_rows_shape(r, h as nat);
    assert(0 <= i % w < w && 0 <= i / w < h) by (nonlinear_arith)
        requires
            0 <= i < h * w,
            w > 0,
            h > 0,
    ;
}

/// The first `k` rows of a non-empty range hold `k * width` points, the
/// `i`-th of which is at column `i % width` and row `i / width`.
pub proof fn lemma_rows_shape(r: Range, k: nat)
    requires
        !r.spec_is_empty(),
        k <= r.spec_height(),
    ensures
        r.rows(k).len() == k * r.spec_width(),
        forall|i: int| 0 <= i < r.rows(k).len() ==> #[trigger] r.rows(k)[i] == pt(
            r.min.x + i % r.spec_width(),
            r.min.y + i / r.spec_width(),
        ),
    decreases k,
{
    let w = r.spec_width();
    if k > 0 {
        lemma_rows_shape(r, (k - 1) as nat);
        let prev = r.rows((k - 1) as nat);
        assert((k - 1) * w + w == k * w) by (nonlinear_arith);
        assert forall|i: int| 0 <= i < r.rows(k).len() implies #[trigger] r.rows(k)[i] == pt(
            r.min.x + i % w,
            r.min.y + i / w,
        ) by {
            if i >= prev.len() {
                let j = i - prev.len();
                assert(0 <= j < w);
                assert(i == (k - 1) * w + j);
                assert(i % w == j && i / w == k - 1) by (nonlinear_arith)
                    requires
                        i == (k - 1) * w + j,
                        0 <= j < w,
                        k >= 1,
                ;
            }
        }
    }
}

impl Clone for Grid {
    /// Another view of the same buffer with the same bounds.
    fn clone(&self) -> (g: Grid)
        ensures
            g@ == self@,
    {
        proof {
            use_type_invariant(self);
        }
        Grid { buffer: share_buffer(&self.buffer), bounds: self.bounds }
    }
}

/// A single cell that changed between frames.
#[derive(Copy, Clone, Debug, PartialEq, Eq, Structural)]
pub struct FrameCell {
    pub cell: Cell,
    pub pos: Point,
}

/// A set of cell changes (a diff frame).
#[derive(Clone, Debug)]
pub struct Frame {
    pub cells: Vec<FrameCell>,
    pub width: i32,
    pub height: i32,
    /// Milliseconds since recording start (used for replay timing).
    pub time_ms: u64,
}

impl Default for Frame {
    fn default() -> (f: Frame)
        ensures
            f.cells@.len() == 0,
            f.width == 0,
            f.height == 0,
            f.time_ms == 0,
    {
        Frame { cells: Vec::new(), width: 0, height: 0, time_ms: 0 }
    }
}

/// The difference between two grids: the cells of `curr` that differ from
/// the cell of `prev` at the same relative position, row-major, with
/// relative positions. The frame has `curr`'s size and time 0.
pub fn compute_frame(prev: &Grid, curr: &Grid) -> (f: Frame)
    requires
        prev@.min.x + curr@.spec_width() <= i32::MAX,
        prev@.min.y + curr@.spec_height() <= i32::MAX,
    ensures
        f.width == curr@.spec_width(),
        f.height == curr@.spec_height(),
        f.time_ms == 0,
        forall|i: int| 0 <= i < f.cells@.len() ==>
            0 <= #[trigger] f.cells@[i].pos.x < f.width && 0 <= f.cells@[i].pos.y < f.height,
{
    let b = curr.bounds();
    let w: i32 = b.width();
    let h: i32 = b.height();
    let pb = prev.bounds();
    let mut cells: Vec<FrameCell> = Vec::new();
    let mut y: i32 = 0;
    while y < h
        invariant
            b == curr@,
            pb == prev@,
            pb.min.x >= 0,
            pb.min.y >= 0,
            b.min.x >= 0,
            b.min.y >= 0,
            b.dims_fit(),
            prev@.min.x + w <= i32::MAX,
            prev@.min.y + h <= i32::MAX,
            w == b.spec_width(),
            h == b.spec_height(),
            0 <= y,
                y <= h || y == 0,
            forall|i: int| 0 <= i < cells@.len() ==>
                0 <= #[trigger] cells@[i].pos.x < w && 0 <= cells@[i].pos.y < h,
        decreases h - y,
    {
        let mut x: i32 = 0;
        while x < w
            invariant
                b == curr@,
                pb == prev@,
                pb.min.x >= 0,
                pb.min.y >= 0,
                b.min.x >= 0,
                b.min.y >= 0,
                b.dims_fit(),
                prev@.min.x + w <= i32::MAX,
                prev@.min.y + h <= i32::MAX,
                w == b.spec_width(),
                h == b.spec_height(),
                0 <= y < h,
                0 <= x,
                    x <= w || x == 0,
                forall|i: int| 0 <= i < cells@.len() ==>
                    0 <= #[trigger] cells@[i].pos.x < w && 0 <= cells@[i].pos.y < h,
            decreases w - x,
        {
            let p = Point::new(x, y);
            let pc = prev.at(p);
            let cc = curr.at(p);
            if pc != cc {
                cells.push(FrameCell { cell: cc, pos: p });
            }
            x = x + 1;
        }
        y = y + 1;
    }
    Frame { cells, width: w, height: h, time_ms: 0 }
}

} // verus!
