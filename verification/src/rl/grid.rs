//! An integer-cell grid for map representation.
//!
//! [`Cell`] is a newtype over `i32`; [`Grid`] is a 2D grid of such cells
//! with slice semantics: views share one backing buffer. All public
//! methods use coordinates relative to the view's origin.
//!
//! As with the display grid, the buffer is shared through an invariant
//! cell: the contracts speak of the views' bounds and of where reads and
//! writes land, not of the stored contents, which every view may change.
use vstd::prelude::*;
use vstd::cell::invcell::InvCell;
use vstd::predicate::Predicate;
use vstd::std_specs::convert::FromSpecImpl;
use vstd::std_specs::iter::IteratorSpec;
use std::rc::Rc;

use crate::geom::{Point, Range, fits_i32, rg, pt, min_int, max_int};
use crate::grid::{lemma_index_in_bounds, lemma_points_in_range, slice_bounds, slice_fits, clamp_span};

verus! {

/// A map cell value, wrapping an `i32`: different values stand for
/// different terrain, as the user decides.
#[derive(Debug, Clone, Copy, PartialEq, Eq, Structural, Hash)]
pub struct Cell(pub i32);

impl Cell {
    /// Create a new cell with the given value.
    pub fn new(value: i32) -> (c: Cell)
        ensures
            c == Cell(value),
    {
        Cell(value)
    }

    /// The underlying integer value.
    pub fn value(self) -> (v: i32)
        ensures
            v == self.0,
    {
        self.0
    }
}

impl Default for Cell {
    fn default() -> (c: Cell)
        ensures
            c == Cell(0),
    {
        Cell(0)
    }
}

impl From<i32> for Cell {
    fn from(v: i32) -> (c: Cell) {
        Cell(v)
    }
}

impl FromSpecImpl<i32> for Cell {
    open spec fn obeys_from_spec() -> bool {
        true
    }

    open spec fn from_spec(v: i32) -> Cell {
        Cell(v)
    }
}

impl From<Cell> for i32 {
    fn from(c: Cell) -> (v: i32) {
        c.0
    }
}

impl FromSpecImpl<Cell> for i32 {
    open spec fn obeys_from_spec() -> bool {
        true
    }

    open spec fn from_spec(c: Cell) -> i32 {
        c.0
    }
}

/// The storage of a grid: a row-major vector of cells.
pub struct GridBuffer {
    cells: Vec<Cell>,
    width: usize,
    height: usize,
}

impl GridBuffer {
    pub closed spec fn wf(&self) -> bool {
        self.cells.len() == self.width * self.height
    }

    fn empty() -> (b: GridBuffer)
        ensures
            b.wf(),
    {
        GridBuffer { cells: Vec::new(), width: 0, height: 0 }
    }

    fn new(width: usize, height: usize) -> (b: GridBuffer)
        requires
            width * height <= usize::MAX,
        ensures
            b.wf(),
            b.width == width,
            b.height == height,
    {
        GridBuffer { cells: vec![Cell(0); width * height], width, height }
    }

    /// Flat index of an absolute position, if it lies inside the buffer.
    fn index(&self, x: i32, y: i32) -> (r: Option<usize>)
        requires
            self.wf(),
        ensures
            r matches Some(i) ==> i < self.cells.len(),
            r is Some <==> (0 <= x && 0 <= y && x < self.width && y < self.height),
    {
        if x >= 0 && y >= 0 && (x as usize) < self.width && (y as usize) < self.height {
            proof {
                lemma_index_in_bounds(x as int, y as int, self.width as int, self.height as int);
            }
            Some((y as usize) * self.width + (x as usize))
        } else {
            None
        }
    }
}

/// The well-formedness of buffers kept in a grid's shared cell.
pub struct BufferWf;

impl Predicate<GridBuffer> for BufferWf {
    open spec fn predicate(&self, b: GridBuffer) -> bool {
        b.wf()
    }
}

/// Shares the buffer cell (`Rc::clone`); the copy points to the same cell.
#[verifier::external_body]
fn share_buffer(b: &Rc<InvCell<GridBuffer, BufferWf>>) -> (r: Rc<InvCell<GridBuffer, BufferWf>>)
    ensures
        r == *b,
{
    Rc::clone(b)
}

/// A 2D grid of [`Cell`] values with slice semantics: several grids may
/// view different rectangles of one buffer.
pub struct Grid {
    buf: Rc<InvCell<GridBuffer, BufferWf>>,
    bounds: Range,
}

impl View for Grid {
    type V = Range;

    /// The bounds of the view in the buffer (absolute coordinates).
    closed spec fn view(&self) -> Range {
        self.bounds
    }
}

impl Grid {
    #[verifier::type_invariant]
    closed spec fn inv(&self) -> bool {
        &&& self.bounds.dims_sym()
        &&& self.bounds.min.x >= 0
        &&& self.bounds.min.y >= 0
    }

    /// Whether relative position `p` can be turned into an absolute one.
    pub open spec fn rel_fits(&self, p: Point) -> bool {
        fits_i32(p.x + self@.min.x) && fits_i32(p.y + self@.min.y)
    }

    /// Whether relative position `p` lies inside the view.
    pub open spec fn has(&self, p: Point) -> bool {
        0 <= p.x < self@.spec_width() && 0 <= p.y < self@.spec_height()
    }

    /// The relative range of the view: (0,0) to its size.
    pub open spec fn rel_range(&self) -> Range {
        rg(
            min_int(self@.spec_width(), 0),
            min_int(self@.spec_height(), 0),
            max_int(self@.spec_width(), 0),
            max_int(self@.spec_height(), 0),
        )
    }

    /// The number of cells of the view.
    pub open spec fn spec_cell_count(&self) -> int {
        max_int(self@.spec_height(), 0) * max_int(self@.spec_width(), 0)
    }

    /// Create a new grid filled with `Cell(0)`; negative dimensions count
    /// as zero.
    pub fn new(width: i32, height: i32) -> (g: Grid)
        requires
            max_int(width as int, 0) * max_int(height as int, 0) <= usize::MAX,
        ensures
            g@ == rg(0, 0, max_int(width as int, 0), max_int(height as int, 0)),
    {
        let w: i32 = if width > 0 { width } else { 0 };
        let h: i32 = if height > 0 { height } else { 0 };
        let buf = GridBuffer::new(w as usize, h as usize);
        Grid { buf: Rc::new(InvCell::new(buf, Ghost(BufferWf))), bounds: Range::new(0, 0, w, h) }
    }

    /// The bounding range (absolute coordinates in the underlying buffer).
    pub fn bounds(&self) -> (r: Range)
        ensures
            r == self@,
            r.dims_sym(),
            r.min.x >= 0,
            r.min.y >= 0,
    {
        proof {
            use_type_invariant(self);
        }
        self.bounds
    }

    /// The relative range: min at (0,0), max at the size.
    pub fn range_(&self) -> (r: Range)
        ensures
            r == self.rel_range(),
    {
        proof {
            use_type_invariant(self);
        }
        Range::new(0, 0, self.bounds.width(), self.bounds.height())
    }

    /// The size as a point (width, height).
    pub fn size(&self) -> (p: Point)
        ensures
            p.x == self@.spec_width(),
            p.y == self@.spec_height(),
    {
        proof {
            use_type_invariant(self);
        }
        self.bounds.size()
    }

    /// Width of this grid view.
    pub fn width(&self) -> (w: i32)
        ensures
            w == self@.spec_width(),
    {
        proof {
            use_type_invariant(self);
        }
        self.bounds.width()
    }

    /// Height of this grid view.
    pub fn height(&self) -> (h: i32)
        ensures
            h == self@.spec_height(),
    {
        proof {
            use_type_invariant(self);
        }
        self.bounds.height()
    }

    /// Whether relative point `p` is inside this grid.
    pub fn contains(&self, p: Point) -> (b: bool)
        requires
            self.rel_fits(p),
        ensures
            b == self.has(p),
    {
        let q = Point::new(p.x + self.bounds.min.x, p.y + self.bounds.min.y);
        self.bounds.contains(q)
    }

    /// A sub-grid view of the relative range `r`, clamped to this grid's
    /// size, sharing the same buffer.
    pub fn slice(&self, r: Range) -> (g: Grid)
        requires
            slice_fits(self@, r),
        ensures
            g@ == slice_bounds(self@, r),
    {
        proof {
            use_type_invariant(self);
        }
        let (min_x, max_x) = clamp_span(r.min.x, r.max.x, self.size().x);
        let (min_y, max_y) = clamp_span(r.min.y, r.max.y, self.size().y);
        let abs_min = Point::new(min_x + self.bounds.min.x, min_y + self.bounds.min.y);
        let abs_max = Point::new(max_x + self.bounds.min.x, max_y + self.bounds.min.y);
        Grid { buf: share_buffer(&self.buf), bounds: Range { min: abs_min, max: abs_max } }
    }

    /// The cell at relative position `p`, or `None` if out of bounds.
    pub fn at(&self, p: Point) -> (c: Option<Cell>)
        requires
            self.rel_fits(p),
        ensures
            c is Some <==> self.has(p),
    {
        proof {
            use_type_invariant(self);
        }
        let q = Point::new(p.x + self.bounds.min.x, p.y + self.bounds.min.y);
        if !self.bounds.contains(q) {
            return None;
        }
        let buf = self.buf.replace(GridBuffer::empty());
        let c = match buf.index(q.x, q.y) {
            Some(i) => buf.cells[i],
            None => Cell(0),
        };
        let _ = self.buf.replace(buf);
        Some(c)
    }

    /// Set the cell at relative position `p`. Does nothing if out of bounds.
    pub fn set(&self, p: Point, cell: Cell)
        requires
            self.rel_fits(p),
    {
        let q = Point::new(p.x + self.bounds.min.x, p.y + self.bounds.min.y);
        if !self.bounds.contains(q) {
            return;
        }
        let mut buf = self.buf.replace(GridBuffer::empty());
        match buf.index(q.x, q.y) {
            Some(i) => {
                buf.cells.set(i, cell);
            },
            None => {},
        }
        let _ = self.buf.replace(buf);
    }

    /// Fill the entire grid view with the given cell.
    pub fn fill(&self, cell: Cell) {
        proof {
            use_type_invariant(self);
        }
        if self.bounds.is_empty() {
            return;
        }
        let mut buf = self.buf.replace(GridBuffer::empty());
        let mut y: i32 = self.bounds.min.y;
        while y < self.bounds.max.y
            invariant
                buf.wf(),
                self.bounds.min.y <= y <= self.bounds.max.y,
                !self.bounds.spec_is_empty(),
            decreases self.bounds.max.y - y,
        {
            let mut x: i32 = self.bounds.min.x;
            while x < self.bounds.max.x
                invariant
                    buf.wf(),
                    self.bounds.min.y <= y < self.bounds.max.y,
                    !self.bounds.spec_is_empty(),
                    self.bounds.min.x <= x <= self.bounds.max.x,
                decreases self.bounds.max.x - x,
            {
                match buf.index(x, y) {
                    Some(i) => {
                        buf.cells.set(i, cell);
                    },
                    None => {},
                }
                x = x + 1;
            }
            y = y + 1;
        }
        let _ = self.buf.replace(buf);
    }

    /// Fill the grid view with the successive values of `f`, row-major.
    pub fn fill_fn<F: FnMut() -> Cell>(&self, f: F)
        requires
            forall|s: F| #[trigger] s.requires(()),
    {
        proof {
            use_type_invariant(self);
        }
        let mut f = f;
        if self.bounds.is_empty() {
            return;
        }
        let mut buf = self.buf.replace(GridBuffer::empty());
        let mut y: i32 = self.bounds.min.y;
        while y < self.bounds.max.y
            invariant
                buf.wf(),
                forall|s: F| #[trigger] s.requires(()),
                self.bounds.min.y <= y <= self.bounds.max.y,
                !self.bounds.spec_is_empty(),
            decreases self.bounds.max.y - y,
        {
            let mut x: i32 = self.bounds.min.x;
            while x < self.bounds.max.x
                invariant
                    buf.wf(),
                    forall|s: F| #[trigger] s.requires(()),
                    self.bounds.min.y <= y < self.bounds.max.y,
                    !self.bounds.spec_is_empty(),
                    self.bounds.min.x <= x <= self.bounds.max.x,
                decreases self.bounds.max.x - x,
            {
                match buf.index(x, y) {
                    Some(i) => {
                        let c = f();
                        buf.cells.set(i, c);
                    },
                    None => {},
                }
                x = x + 1;
            }
            y = y + 1;
        }
        let _ = self.buf.replace(buf);
    }

    /// Replace every cell with `f(relative position, cell)`, row-major.
    pub fn map_cells<F: FnMut(Point, Cell) -> Cell>(&self, f: F)
        requires
            forall|s: F, p: Point, c: Cell| #[trigger] s.requires((p, c)),
    {
        proof {
            use_type_invariant(self);
        }
        let mut f = f;
        if self.bounds.is_empty() {
            return;
        }
        let mut buf = self.buf.replace(GridBuffer::empty());
        let min = self.bounds.min;
        let mut y: i32 = self.bounds.min.y;
        while y < self.bounds.max.y
            invariant
                buf.wf(),
                min == self.bounds.min,
                self.bounds.dims_fit(),
                forall|s: F, p: Point, c: Cell| #[trigger] s.requires((p, c)),
                self.bounds.min.y <= y <= self.bounds.max.y,
                !self.bounds.spec_is_empty(),
            decreases self.bounds.max.y - y,
        {
            let mut x: i32 = self.bounds.min.x;
            while x < self.bounds.max.x
                invariant
                    buf.wf(),
                    min == self.bounds.min,
                    self.bounds.dims_fit(),
                    forall|s: F, p: Point, c: Cell| #[trigger] s.requires((p, c)),
                    self.bounds.min.y <= y < self.bounds.max.y,
                    !self.bounds.spec_is_empty(),
                    self.bounds.min.x <= x <= self.bounds.max.x,
                decreases self.bounds.max.x - x,
            {
                match buf.index(x, y) {
                    Some(i) => {
                        let rel = Point::new(x - min.x, y - min.y);
                        let nc = f(rel, buf.cells[i]);
                        buf.cells.set(i, nc);
                    },
                    None => {},
                }
                x = x + 1;
            }
            y = y + 1;
        }
        let _ = self.buf.replace(buf);
    }

    /// Call `f` with the relative position and the cell of every cell,
    /// row-major, storing the cell as `f` left it.
    pub fn for_each_mut<F: FnMut(Point, &mut Cell)>(&self, f: F)
        requires
            forall|s: F, p: Point, c: &mut Cell| #[trigger] s.requires((p, c)),
    {
        proof {
            use_type_invariant(self);
        }
        let mut f = f;
        if self.bounds.is_empty() {
            return;
        }
        let mut buf = self.buf.replace(GridBuffer::empty());
        let min = self.bounds.min;
        let mut y: i32 = self.bounds.min.y;
        while y < self.bounds.max.y
            invariant
                buf.wf(),
                min == self.bounds.min,
                self.bounds.dims_fit(),
                forall|s: F, p: Point, c: &mut Cell| #[trigger] s.requires((p, c)),
                self.bounds.min.y <= y <= self.bounds.max.y,
                !self.bounds.spec_is_empty(),
            decreases self.bounds.max.y - y,
        {
            let mut x: i32 = self.bounds.min.x;
            while x < self.bounds.max.x
                invariant
                    buf.wf(),
                    min == self.bounds.min,
                    self.bounds.dims_fit(),
                    forall|s: F, p: Point, c: &mut Cell| #[trigger] s.requires((p, c)),
                    self.bounds.min.y <= y < self.bounds.max.y,
                    !self.bounds.spec_is_empty(),
                    self.bounds.min.x <= x <= self.bounds.max.x,
                decreases self.bounds.max.x - x,
            {
                match buf.index(x, y) {
                    Some(i) => {
                        let rel = Point::new(x - min.x, y - min.y);
                        let mut nc = buf.cells[i];
                        f(rel, &mut nc);
                        buf.cells.set(i, nc);
                    },
                    None => {},
                }
                x = x + 1;
            }
            y = y + 1;
        }
        let _ = self.buf.replace(buf);
    }

    /// Replace each cell with `f(relative position, cell)`; the same as
    /// `map_cells`, named for the mutation.
    pub fn map_cells_mut<F: FnMut(Point, Cell) -> Cell>(&self, f: F)
        requires
            forall|s: F, p: Point, c: Cell| #[trigger] s.requires((p, c)),
    {
        self.map_cells(f);
    }
}

impl Grid {
    /// Copy cells from `src` into `self`, aligning origins. Returns the size
    /// actually copied: the minimum of both grids' sizes on each axis.
    pub fn copy_from(&self, src: &Grid) -> (copied: Point)
        ensures
            copied == pt(
                min_int(src@.spec_width(), self@.spec_width()),
                min_int(src@.spec_height(), self@.spec_height()),
            ),
    {
        proof {
            use_type_invariant(self);
            use_type_invariant(src);
        }
        let sw: i32 = if src.bounds.width() <= self.bounds.width() {
            src.bounds.width()
        } else {
            self.bounds.width()
        };
        let sh: i32 = if src.bounds.height() <= self.bounds.height() {
            src.bounds.height()
        } else {
            self.bounds.height()
        };
        // Read the source first, so that overlapping views of one buffer
        // copy what the source held before the copy.
        let mut tmp: Vec<Option<Cell>> = Vec::new();
        let sbuf = src.buf.replace(GridBuffer::empty());
        let mut dy: i32 = 0;
        while dy < sh
            invariant
                sbuf.wf(),
                src.bounds.dims_fit(),
                src.bounds.min.x >= 0,
                src.bounds.min.y >= 0,
                sh <= src.bounds.spec_height(),
                sw <= src.bounds.spec_width(),
                0 <= dy,
                dy <= sh || dy == 0,
            decreases sh - dy,
        {
            let mut dx: i32 = 0;
            while dx < sw
                invariant
                    sbuf.wf(),
                    src.bounds.dims_fit(),
                    src.bounds.min.x >= 0,
                    src.bounds.min.y >= 0,
                    sh <= src.bounds.spec_height(),
                    sw <= src.bounds.spec_width(),
                    0 <= dy < sh,
                    0 <= dx,
                    dx <= sw || dx == 0,
                decreases sw - dx,
            {
                let sx: i32 = src.bounds.min.x + dx;
                let sy: i32 = src.bounds.min.y + dy;
                match sbuf.index(sx, sy) {
                    Some(i) => tmp.push(Some(sbuf.cells[i])),
                    None => tmp.push(None),
                }
                dx = dx + 1;
            }
            dy = dy + 1;
        }
        let _ = src.buf.replace(sbuf);
        let mut dbuf = self.buf.replace(GridBuffer::empty());
        let mut k: usize = 0;
        let mut dy: i32 = 0;
        while dy < sh
            invariant
                dbuf.wf(),
                self.bounds.dims_fit(),
                self.bounds.min.x >= 0,
                self.bounds.min.y >= 0,
                sh <= self.bounds.spec_height(),
                sw <= self.bounds.spec_width(),
                0 <= dy,
                dy <= sh || dy == 0,
            decreases sh - dy,
        {
            let mut dx: i32 = 0;
            while dx < sw
                invariant
                    dbuf.wf(),
                    self.bounds.dims_fit(),
                    self.bounds.min.x >= 0,
                    self.bounds.min.y >= 0,
                    sh <= self.bounds.spec_height(),
                    sw <= self.bounds.spec_width(),
                    0 <= dy < sh,
                    0 <= dx,
                    dx <= sw || dx == 0,
                decreases sw - dx,
            {
                let x: i32 = self.bounds.min.x + dx;
                let y: i32 = self.bounds.min.y + dy;
                if k < tmp.len() {
                    match tmp[k] {
                        Some(c) => match dbuf.index(x, y) {
                            Some(i) => {
                                dbuf.cells.set(i, c);
                            },
                            None => {},
                        },
                        None => {},
                    }
                }
                if k < usize::MAX {
                    k = k + 1;
                }
                dx = dx + 1;
            }
            dy = dy + 1;
        }
        let _ = self.buf.replace(dbuf);
        Point::new(sw, sh)
    }

    /// Resize the view to the given dimensions.
    ///
    /// A non-positive dimension empties the view (its max becomes its min).
    /// When the underlying buffer is large enough the view is just widened;
    /// otherwise a new buffer of the requested size is made, the overlapping
    /// cells are copied into it, new cells are default, and the view covers
    /// the whole new buffer.
    pub fn resize(&mut self, width: i32, height: i32)
        requires
            width > 0 && height > 0 ==> width * height <= usize::MAX,
            width > 0 && height > 0 ==> fits_i32(old(self)@.min.x + width)
                && fits_i32(old(self)@.min.y + height),
        ensures
            ({
                let o = old(self)@;
                let n = final(self)@;
                if o.spec_width() == width && o.spec_height() == height {
                    n == o
                } else if width <= 0 || height <= 0 {
                    n == (Range { min: o.min, max: o.min })
                } else {
                    (n == rg(o.min.x as int, o.min.y as int, o.min.x + width, o.min.y + height)
                        || n == rg(0, 0, width as int, height as int))
                }
            }),
    {
        proof {
            use_type_invariant(&*self);
        }
        let ow: i32 = self.bounds.width();
        let oh: i32 = self.bounds.height();
        if ow == width && oh == height {
            return;
        }
        if width <= 0 || height <= 0 {
            self.bounds = Range { min: self.bounds.min, max: self.bounds.min };
            return;
        }
        let new_w: usize = width as usize;
        let new_h: usize = height as usize;
        let old = self.buf.replace(GridBuffer::empty());
        let min_x: usize = self.bounds.min.x as usize;
        let min_y: usize = self.bounds.min.y as usize;
        if new_w <= old.width && min_x <= old.width - new_w && new_h <= old.height && min_y
            <= old.height - new_h {
            let _ = self.buf.replace(old);
            self.bounds = Range { min: self.bounds.min, max: self.bounds.min.shift(width, height) };
            return;
        }
        let mut nb = GridBuffer::new(new_w, new_h);
        let copy_w: i32 = if ow <= width { ow } else { width };
        let copy_h: i32 = if oh <= height { oh } else { height };
        let mut dy: i32 = 0;
        while dy < copy_h
            invariant
                old.wf(),
                nb.wf(),
                nb.width == new_w,
                nb.height == new_h,
                new_w == width,
                new_h == height,
                self.bounds.dims_fit(),
                self.bounds.min.x >= 0,
                self.bounds.min.y >= 0,
                copy_h <= height,
                copy_w <= width,
                copy_h <= self.bounds.spec_height(),
                copy_w <= self.bounds.spec_width(),
                0 <= dy,
                dy <= copy_h || dy == 0,
            decreases copy_h - dy,
        {
            let mut dx: i32 = 0;
            while dx < copy_w
                invariant
                    old.wf(),
                    nb.wf(),
                    nb.width == new_w,
                    nb.height == new_h,
                    new_w == width,
                    new_h == height,
                    self.bounds.dims_fit(),
                    self.bounds.min.x >= 0,
                    self.bounds.min.y >= 0,
                    copy_h <= height,
                    copy_w <= width,
                    copy_h <= self.bounds.spec_height(),
                    copy_w <= self.bounds.spec_width(),
                    0 <= dy < copy_h,
                    0 <= dx,
                    dx <= copy_w || dx == 0,
                decreases copy_w - dx,
            {
                let sx: i32 = self.bounds.min.x + dx;
                let sy: i32 = self.bounds.min.y + dy;
                match (old.index(sx, sy), nb.index(dx, dy)) {
                    (Some(si), Some(di)) => {
                        let c = old.cells[si];
                        nb.cells.set(di, c);
                    },
                    _ => {},
                }
                dx = dx + 1;
            }
            dy = dy + 1;
        }
        let _ = self.buf.replace(old);
        self.buf = Rc::new(InvCell::new(nb, Ghost(BufferWf)));
        self.bounds = Range::new(0, 0, width, height);
    }

    /// The cells of the view with their relative positions, row-major.
    pub fn cells(&self) -> (v: Vec<(Point, Cell)>)
        requires
            self.rel_range().spec_len() <= usize::MAX,
        ensures
            v@.len() == self.rel_range().points_seq().len(),
            forall|i: int| 0 <= i < v@.len() ==> #[trigger] v@[i].0 == self.rel_range().points_seq()[i],
    {
        proof {
            use_type_invariant(self);
        }
        let r = self.range_();
        let pts = r.points();
        let mut v: Vec<(Point, Cell)> = Vec::new();
        let mut i: usize = 0;
        while i < pts.len()
            invariant
                pts@ == r.points_seq(),
                r == self.rel_range(),
                self.bounds.dims_sym(),
                self.bounds.min.x >= 0,
                self.bounds.min.y >= 0,
                i <= pts.len(),
                v@.len() == i,
                forall|j: int| 0 <= j < i ==> #[trigger] v@[j].0 == pts@[j],
            decreases pts.len() - i,
        {
            let p = pts[i];
            proof {
                lemma_points_in_range(r, i as int);
            }
            let c = match self.at(p) {
                Some(c) => c,
                None => Cell(0),
            };
            v.push((p, c));
            i = i + 1;
        }
        v
    }

    /// Row-major iterator over `(Point, Cell)` pairs with relative
    /// coordinates.
    pub fn iter(&self) -> (it: std::vec::IntoIter<(Point, Cell)>)
        requires
            self.rel_range().spec_len() <= usize::MAX,
        ensures
            it.remaining().len() == self.rel_range().points_seq().len(),
            forall|i: int| 0 <= i < it.remaining().len() ==>
                #[trigger] it.remaining()[i].0 == self.rel_range().points_seq()[i],
    {
        self.cells().into_iter()
    }

    /// The cell at relative position `p`, without checking the view's
    /// bounds: the cell of the underlying buffer at the absolute position
    /// when the buffer holds that position, else `Cell(0)`.
    pub fn at_unchecked(&self, p: Point) -> (c: Cell)
        requires
            self.rel_fits(p),
    {
        let q = Point::new(p.x + self.bounds.min.x, p.y + self.bounds.min.y);
        let buf = self.buf.replace(GridBuffer::empty());
        proof {
            let w = buf.width as int;
            let y = q.y as int;
            assert(-0x8000_0000 * 0x1_0000_0000_0000_0000 <= y * w <= 0x8000_0000 * 0x1_0000_0000_0000_0000)
                by (nonlinear_arith)
                requires
                    -0x8000_0000 <= y < 0x8000_0000,
                    0 <= w < 0x1_0000_0000_0000_0000,
            ;
        }
        let i: i128 = q.y as i128 * buf.width as i128 + q.x as i128;
        let c = if q.x < 0 || q.y < 0 || q.x as i128 >= buf.width as i128 || i < 0 || i >= buf.cells.len() as i128 {
            Cell(0)
        } else {
            buf.cells[i as usize]
        };
        let _ = self.buf.replace(buf);
        c
    }

    /// The number of cells of the view equal to `cell`.
    pub fn count(&self, cell: Cell) -> (n: usize)
        requires
            self.spec_cell_count() <= usize::MAX,
        ensures
            n <= self.spec_cell_count(),
    {
        proof {
            use_type_invariant(self);
        }
        if self.bounds.is_empty() {
            return 0;
        }
        let buf = self.buf.replace(GridBuffer::empty());
        let min = self.bounds.min;
        let w: i32 = self.bounds.width();
        let mut n: usize = 0;
        let mut y: i32 = self.bounds.min.y;
        while y < self.bounds.max.y
            invariant
                buf.wf(),
                min == self.bounds.min,
                w == self.bounds.spec_width(),
                self.bounds.dims_sym(),
                self.bounds.min.x >= 0,
                self.bounds.min.y >= 0,
                self.bounds.min.y <= y <= self.bounds.max.y,
                !self.bounds.spec_is_empty(),
                n <= (y - self.bounds.min.y) * w,
                self.spec_cell_count() <= usize::MAX,
            decreases self.bounds.max.y - y,
        {
            proof {
                assert(self.spec_cell_count() == self.bounds.spec_height() * w);
                assert((y - self.bounds.min.y) * w + w <= self.bounds.spec_height() * w) by (nonlinear_arith)
                    requires
                        0 <= y - self.bounds.min.y < self.bounds.spec_height(),
                        w > 0,
                ;
            }
            let mut x: i32 = self.bounds.min.x;
            while x < self.bounds.max.x
                invariant
                    buf.wf(),
                    min == self.bounds.min,
                    w == self.bounds.spec_width(),
                    self.bounds.dims_sym(),
                    self.bounds.min.x >= 0,
                    self.bounds.min.y >= 0,
                    self.bounds.min.y <= y < self.bounds.max.y,
                    !self.bounds.spec_is_empty(),
                    self.bounds.min.x <= x <= self.bounds.max.x,
                    n <= (y - self.bounds.min.y) * w + (x - self.bounds.min.x),
                    self.spec_cell_count() <= usize::MAX,
                    self.spec_cell_count() == self.bounds.spec_height() * w,
                    (y - self.bounds.min.y) * w + w <= self.spec_cell_count(),
                decreases self.bounds.max.x - x,
            {
                proof {
                    assert((y - self.bounds.min.y) * w + w <= self.bounds.spec_height() * w) by (nonlinear_arith)
                        requires
                            0 <= y - self.bounds.min.y < self.bounds.spec_height(),
                            w > 0,
                    ;
                }
                match buf.index(x, y) {
                    Some(i) => {
                        let rel = Point::new(x - min.x, y - min.y);
                        if buf.cells[i] == cell {
                            n = n + 1;
                        }
                    },
                    None => {},
                }
                x = x + 1;
            }
            proof {
                assert((y - self.bounds.min.y) * w + w == (y + 1 - self.bounds.min.y) * w) by (nonlinear_arith);
            }
            y = y + 1;
        }
        let _ = self.buf.replace(buf);
        proof {
            assert(self.spec_cell_count() == self.bounds.spec_height() * w);
        }
        n
    }

    /// The number of cells of the view for which `f(relative position,
    /// cell)` holds.
    pub fn count_fn<F: FnMut(Point, Cell) -> bool>(&self, f: F) -> (n: usize)
        requires
            self.spec_cell_count() <= usize::MAX,
            forall|s: F, p: Point, c: Cell| #[trigger] s.requires((p, c)),
        ensures
            n <= self.spec_cell_count(),
    {
        proof {
            use_type_invariant(self);
        }
        let mut f = f;
        if self.bounds.is_empty() {
            return 0;
        }
        let buf = self.buf.replace(GridBuffer::empty());
        let min = self.bounds.min;
        let w: i32 = self.bounds.width();
        let mut n: usize = 0;
        let mut y: i32 = self.bounds.min.y;
        while y < self.bounds.max.y
            invariant
                buf.wf(),
                min == self.bounds.min,
                w == self.bounds.spec_width(),
                self.bounds.dims_sym(),
                self.bounds.min.x >= 0,
                self.bounds.min.y >= 0,
                forall|s: F, p: Point, c: Cell| #[trigger] s.requires((p, c)),
                self.bounds.min.y <= y <= self.bounds.max.y,
                !self.bounds.spec_is_empty(),
                n <= (y - self.bounds.min.y) * w,
                self.spec_cell_count() <= usize::MAX,
            decreases self.bounds.max.y - y,
        {
            proof {
                assert(self.spec_cell_count() == self.bounds.spec_height() * w);
                assert((y - self.bounds.min.y) * w + w <= self.bounds.spec_height() * w) by (nonlinear_arith)
                    requires
                        0 <= y - self.bounds.min.y < self.bounds.spec_height(),
                        w > 0,
                ;
            }
            let mut x: i32 = self.bounds.min.x;
            while x < self.bounds.max.x
                invariant
                    buf.wf(),
                    min == self.bounds.min,
                    w == self.bounds.spec_width(),
                    self.bounds.dims_sym(),
                    self.bounds.min.x >= 0,
                    self.bounds.min.y >= 0,
                    forall|s: F, p: Point, c: Cell| #[trigger] s.requires((p, c)),
                    self.bounds.min.y <= y < self.bounds.max.y,
                    !self.bounds.spec_is_empty(),
                    self.bounds.min.x <= x <= self.bounds.max.x,
                    n <= (y - self.bounds.min.y) * w + (x - self.bounds.min.x),
                    self.spec_cell_count() <= usize::MAX,
                    self.spec_cell_count() == self.bounds.spec_height() * w,
                    (y - self.bounds.min.y) * w + w <= self.spec_cell_count(),
                decreases self.bounds.max.x - x,
            {
                proof {
                    assert((y - self.bounds.min.y) * w + w <= self.bounds.spec_height() * w) by (nonlinear_arith)
                        requires
                            0 <= y - self.bounds.min.y < self.bounds.spec_height(),
                            w > 0,
                    ;
                }
                match buf.index(x, y) {
                    Some(i) => {
                        let rel = Point::new(x - min.x, y - min.y);
                        if f(rel, buf.cells[i]) {
                            n = n + 1;
                        }
                    },
                    None => {},
                }
                x = x + 1;
            }
            proof {
                assert((y - self.bounds.min.y) * w + w == (y + 1 - self.bounds.min.y) * w) by (nonlinear_arith);
            }
            y = y + 1;
        }
        let _ = self.buf.replace(buf);
        proof {
            assert(self.spec_cell_count() == self.bounds.spec_height() * w);
        }
        n
    }
}

impl Clone for Grid {
    /// Another view of the same buffer with the same bounds.
    fn clone(&self) -> (g: Grid)
        ensures
            g@ == self@,
    {
        proof {
            use_type_invariant(self);
        }
        Grid { buf: share_buffer(&self.buf), bounds: self.bounds }
    }
}

} // verus!
