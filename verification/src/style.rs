//! Visual styling: [`Color`], [`AttrMask`], and [`Style`].
use vstd::prelude::*;
use vstd::std_specs::ops::{BitOrSpecImpl, BitAndSpecImpl};

verus! {

/// An RGB colour packed into a `u32` (0x00RRGGBB).
#[derive(Copy, Clone, Debug, PartialEq, Eq, Structural, Hash, Default)]
pub struct Color(pub u32);

impl Color {
    /// The default / unset colour (0).
    #[allow(non_snake_case)]
    pub fn DEFAULT() -> (c: Color)
        ensures
            c.0 == 0,
    {
        Color(0)
    }

    /// Construct from individual RGB components.
    pub fn from_rgb(r: u8, g: u8, b: u8) -> (c: Color)
        ensures
            c.0 == r * 65536 + g * 256 + b,
    {
        let v: u32 = ((r as u32) << 16u32) | ((g as u32) << 8u32) | (b as u32);
        assert(((r as u32) << 16u32) | ((g as u32) << 8u32) | (b as u32) == r * 65536 + g * 256 + b)
            by (bit_vector);
        Color(v)
    }

    /// Red component.
    pub fn r(self) -> (v: u8)
        ensures
            v == (self.0 / 65536) % 256,
    {
        let c: u32 = self.0;
        assert((c >> 16u32) & 0xFFu32 == (c / 65536) % 256) by (bit_vector);
        ((c >> 16u32) & 0xFFu32) as u8
    }

    /// Green component.
    pub fn g(self) -> (v: u8)
        ensures
            v == (self.0 / 256) % 256,
    {
        let c: u32 = self.0;
        assert((c >> 8u32) & 0xFFu32 == (c / 256) % 256) by (bit_vector);
        ((c >> 8u32) & 0xFFu32) as u8
    }

    /// Blue component.
    pub fn b(self) -> (v: u8)
        ensures
            v == self.0 % 256,
    {
        let c: u32 = self.0;
        assert(c & 0xFFu32 == c % 256) by (bit_vector);
        (c & 0xFFu32) as u8
    }
}

/// Reading back the components of a colour built from them gives them back.
pub proof fn lemma_rgb_round_trip(r: u8, g: u8, b: u8)
    ensures
        ((r * 65536 + g * 256 + b) / 65536) % 256 == r,
        ((r * 65536 + g * 256 + b) / 256) % 256 == g,
        (r * 65536 + g * 256 + b) % 256 == b,
{
    assert(((r * 65536 + g * 256 + b) / 65536) % 256 == r) by (nonlinear_arith)
        requires
            r < 256,
            g < 256,
            b < 256,
    ;
    assert(((r * 65536 + g * 256 + b) / 256) % 256 == g) by (nonlinear_arith)
        requires
            r < 256,
            g < 256,
            b < 256,
    ;
    assert((r * 65536 + g * 256 + b) % 256 == b) by (nonlinear_arith)
        requires
            r < 256,
            g < 256,
            b < 256,
    ;
}

/// Bitmask of text attributes.
#[derive(Copy, Clone, Debug, PartialEq, Eq, Structural, Hash, Default)]
pub struct AttrMask(pub u32);

impl AttrMask {
    /// No attribute.
    #[allow(non_snake_case)]
    pub fn NONE() -> (m: AttrMask)
        ensures
            m.0 == 0,
    {
        AttrMask(0)
    }

    /// Bold text.
    #[allow(non_snake_case)]
    pub fn BOLD() -> (m: AttrMask)
        ensures
            m.0 == 1,
    {
        AttrMask(1)
    }

    /// Italic text.
    #[allow(non_snake_case)]
    pub fn ITALIC() -> (m: AttrMask)
        ensures
            m.0 == 2,
    {
        AttrMask(2)
    }

    /// Underlined text.
    #[allow(non_snake_case)]
    pub fn UNDERLINE() -> (m: AttrMask)
        ensures
            m.0 == 4,
    {
        AttrMask(4)
    }

    /// Blinking text.
    #[allow(non_snake_case)]
    pub fn BLINK() -> (m: AttrMask)
        ensures
            m.0 == 8,
    {
        AttrMask(8)
    }

    /// Reverse video.
    #[allow(non_snake_case)]
    pub fn REVERSE() -> (m: AttrMask)
        ensures
            m.0 == 16,
    {
        AttrMask(16)
    }

    /// Dim text.
    #[allow(non_snake_case)]
    pub fn DIM() -> (m: AttrMask)
        ensures
            m.0 == 32,
    {
        AttrMask(32)
    }

    /// Whether this mask contains all the bits from `other`.
    pub fn contains(self, other: AttrMask) -> (b: bool)
        ensures
            b == ((self.0 & other.0) == other.0),
    {
        (self.0 & other.0) == other.0
    }

    /// Whether the mask is empty.
    pub fn is_empty(self) -> (b: bool)
        ensures
            b == (self.0 == 0),
    {
        self.0 == 0
    }
}

impl core::ops::BitOr for AttrMask {
    type Output = AttrMask;

    fn bitor(self, rhs: AttrMask) -> (r: AttrMask) {
        AttrMask(self.0 | rhs.0)
    }
}

impl BitOrSpecImpl for AttrMask {
    open spec fn obeys_bitor_spec() -> bool {
        true
    }

    open spec fn bitor_req(self, rhs: AttrMask) -> bool {
        true
    }

    open spec fn bitor_spec(self, rhs: AttrMask) -> AttrMask {
        AttrMask(self.0 | rhs.0)
    }
}

impl core::ops::BitAnd for AttrMask {
    type Output = AttrMask;

    fn bitand(self, rhs: AttrMask) -> (r: AttrMask) {
        AttrMask(self.0 & rhs.0)
    }
}

impl BitAndSpecImpl for AttrMask {
    open spec fn obeys_bitand_spec() -> bool {
        true
    }

    open spec fn bitand_req(self, rhs: AttrMask) -> bool {
        true
    }

    open spec fn bitand_spec(self, rhs: AttrMask) -> AttrMask {
        AttrMask(self.0 & rhs.0)
    }
}

/// Every mask contains its union with another mask's bits... of either side:
/// the union of two masks contains both.
pub proof fn lemma_union_contains_both(a: u32, b: u32)
    ensures
        ((a | b) & a) == a,
        ((a | b) & b) == b,
{
    assert(((a | b) & a) == a) by (bit_vector);
    assert(((a | b) & b) == b) by (bit_vector);
}

/// Complete visual style for a single cell.
#[derive(Copy, Clone, Debug, PartialEq, Eq, Structural, Hash, Default)]
pub struct Style {
    pub fg: Color,
    pub bg: Color,
    pub attrs: AttrMask,
}

impl Style {
    /// The default style: default colours, no attribute.
    pub open spec fn spec_default() -> Style {
        Style { fg: Color(0), bg: Color(0), attrs: AttrMask(0) }
    }

    /// The default style (all zero).
    pub fn new() -> (s: Style)
        ensures
            s == Style::spec_default(),
    {
        Style { fg: Color(0), bg: Color(0), attrs: AttrMask(0) }
    }

    /// Set the foreground colour (builder).
    pub fn with_fg(self, fg: Color) -> (s: Style)
        ensures
            s == (Style { fg, ..self }),
    {
        Style { fg, ..self }
    }

    /// Set the background colour (builder).
    pub fn with_bg(self, bg: Color) -> (s: Style)
        ensures
            s == (Style { bg, ..self }),
    {
        Style { bg, ..self }
    }

    /// Set the attribute mask (builder).
    pub fn with_attrs(self, attrs: AttrMask) -> (s: Style)
        ensures
            s == (Style { attrs, ..self }),
    {
        Style { attrs, ..self }
    }
}

} // verus!
