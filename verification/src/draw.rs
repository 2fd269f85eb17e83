use vstd::prelude::*;

verus! {

/// An RGBA colour with 8-bit channels.
#[derive(Clone, Copy, Debug, PartialEq, Eq, Structural)]
pub struct Color {
    pub r: u8,
    pub g: u8,
    pub b: u8,
    pub a: u8,
}

impl Color {
    pub fn new(r: u8, g: u8, b: u8, a: u8) -> (c: Self)
        ensures
            c == (Color { r, g, b, a }),
    {
        Self { r, g, b, a }
    }

    /// Opaque black.
    pub open spec fn spec_black() -> Color {
        Color { r: 0x0, g: 0x0, b: 0x0, a: 0xFF }
    }

    /// Opaque white.
    pub open spec fn spec_white() -> Color {
        Color { r: 0xFF, g: 0xFF, b: 0xFF, a: 0xFF }
    }

    /// Opaque red.
    pub open spec fn spec_red() -> Color {
        Color { r: 0xFF, g: 0x0, b: 0x0, a: 0xFF }
    }

    /// Opaque green.
    pub open spec fn spec_green() -> Color {
        Color { r: 0x0, g: 0xFF, b: 0x0, a: 0xFF }
    }

    /// Opaque blue.
    pub open spec fn spec_blue() -> Color {
        Color { r: 0x0, g: 0x0, b: 0xFF, a: 0xFF }
    }

    /// Opaque yellow.
    pub open spec fn spec_yellow() -> Color {
        Color { r: 0xFF, g: 0xFF, b: 0x0, a: 0xFF }
    }

    /// The light grey of a hovered button.
    pub open spec fn spec_hover_grey() -> Color {
        Color { r: 0xD0, g: 0xD0, b: 0xD0, a: 0xFF }
    }

    #[verifier::when_used_as_spec(spec_black)]
    pub fn black() -> (c: Self)
        ensures
            c == Self::spec_black(),
    {
        Color::new(0x0, 0x0, 0x0, 0xFF)
    }

    #[verifier::when_used_as_spec(spec_white)]
    pub fn white() -> (c: Self)
        ensures
            c == Self::spec_white(),
    {
        Color::new(0xFF, 0xFF, 0xFF, 0xFF)
    }

    #[verifier::when_used_as_spec(spec_red)]
    pub fn red() -> (c: Self)
        ensures
            c == Self::spec_red(),
    {
        Color::new(0xFF, 0x0, 0x0, 0xFF)
    }

    #[verifier::when_used_as_spec(spec_green)]
    pub fn green() -> (c: Self)
        ensures
            c == Self::spec_green(),
    {
        Color::new(0x0, 0xFF, 0x0, 0xFF)
    }

    #[verifier::when_used_as_spec(spec_blue)]
    pub fn blue() -> (c: Self)
        ensures
            c == Self::spec_blue(),
    {
        Color::new(0x0, 0x0, 0xFF, 0xFF)
    }

    #[verifier::when_used_as_spec(spec_yellow)]
    pub fn yellow() -> (c: Self)
        ensures
            c == Self::spec_yellow(),
    {
        Color::new(0xFF, 0xFF, 0x0, 0xFF)
    }

    #[verifier::when_used_as_spec(spec_hover_grey)]
    pub fn hover_grey() -> (c: Self)
        ensures
            c == Self::spec_hover_grey(),
    {
        Color::new(0xD0, 0xD0, 0xD0, 0xFF)
    }

    /// The four channels in the order red, green, blue, alpha.
    pub fn to_array(self) -> (a: [u8; 4])
        ensures
            a@ == seq![self.r, self.g, self.b, self.a],
    {
        [self.r, self.g, self.b, self.a]
    }
}

/// How the inside of a shape is painted.
#[derive(Clone, Copy, Debug, PartialEq, Eq, Structural)]
pub enum Fill {
    Color(Color),
}

impl Fill {
    /// A solid fill of the given colour.
    pub fn solid(color: Color) -> (f: Self)
        ensures
            f == Fill::Color(color),
    {
        Fill::Color(color)
    }

    /// The colour this fill paints with.
    pub fn color(self) -> (c: Color)
        ensures
            Fill::Color(c) == self,
    {
        match self {
            Fill::Color(c) => c,
        }
    }
}

/// How an outline is painted: a fill and a line width in layout units.
#[derive(Clone, Copy, Debug, PartialEq, Eq, Structural)]
pub struct Stroke {
    pub width: u32,
    pub fill: Fill,
}

impl Stroke {
    /// A stroke one unit wide with the given fill.
    pub fn hairline(fill: Fill) -> (s: Self)
        ensures
            s == (Stroke { width: 1, fill }),
    {
        Self { width: 1, fill }
    }
}

impl From<Color> for Fill {
    fn from(color: Color) -> (f: Self) {
        Fill::Color(color)
    }
}

impl vstd::std_specs::convert::FromSpecImpl<Color> for Fill {
    open spec fn obeys_from_spec() -> bool {
        true
    }

    open spec fn from_spec(color: Color) -> Self {
        Fill::Color(color)
    }
}

impl From<Fill> for Stroke {
    fn from(fill: Fill) -> (s: Self) {
        Stroke { width: 1, fill }
    }
}

impl vstd::std_specs::convert::FromSpecImpl<Fill> for Stroke {
    open spec fn obeys_from_spec() -> bool {
        true
    }

    open spec fn from_spec(fill: Fill) -> Self {
        Stroke { width: 1, fill }
    }
}

impl From<Color> for Stroke {
    fn from(color: Color) -> (s: Self) {
        Stroke { width: 1, fill: Fill::Color(color) }
    }
}

impl vstd::std_specs::convert::FromSpecImpl<Color> for Stroke {
    open spec fn obeys_from_spec() -> bool {
        true
    }

    open spec fn from_spec(color: Color) -> Self {
        Stroke { width: 1, fill: Fill::Color(color) }
    }
}

} // verus!
