//! Render-side vocabulary that the scene logic hands to the renderer:
//! primitive shapes and colours.
use vstd::prelude::*;
use crate::random::random_index;

verus! {

/// Shape of a rendered primitive.
#[derive(Debug, Clone, Copy, PartialEq, Eq, Structural)]
pub enum PrimitiveType {
    Cube,
    Sphere,
    Cylinder,
    Torus,
    Tetrahedron,
    Octahedron,
    Dodecahedron,
    Icosahedron,
    Triangle2D,
    Circle2D,
    Diamond2D,
    Hexagon2D,
    Star2D,
    Cross2D,
}

/// Largest value of a colour channel: channels are kept in thousandths,
/// so `CHANNEL_MAX` stands for full intensity (1.0).
pub const CHANNEL_MAX: u16 = 1000;

/// A render colour: either an entry of the renderer's named palette, or
/// explicit red, green, blue and alpha channels in thousandths.
#[derive(Debug, Clone, Copy, PartialEq, Eq, Structural)]
pub enum Color {
    White,
    Red,
    Green,
    Yellow,
    Cyan,
    Magenta,
    Pink,
    Navy,
    Forest,
    Orange,
    Purple,
    Rgba { r: u16, g: u16, b: u16, a: u16 },
}

impl Color {
    /// Every channel of an explicit colour is at most full intensity.
    pub open spec fn wf(self) -> bool {
        match self {
            Color::Rgba { r, g, b, a } => r <= CHANNEL_MAX && g <= CHANNEL_MAX && b <= CHANNEL_MAX
                && a <= CHANNEL_MAX,
            _ => true,
        }
    }

    /// An explicit, fully opaque colour with valid channels.
    pub open spec fn is_opaque_rgba(self) -> bool {
        self.wf() && (self matches Color::Rgba { a, .. } && a == CHANNEL_MAX)
    }

    /// An explicit colour from channels given in thousandths.
    pub fn rgba(r: u16, g: u16, b: u16, a: u16) -> (c: Color)
        requires
            r <= CHANNEL_MAX,
            g <= CHANNEL_MAX,
            b <= CHANNEL_MAX,
            a <= CHANNEL_MAX,
        ensures
            c == (Color::Rgba { r, g, b, a }),
            c.wf(),
    {
        Color::Rgba { r, g, b, a }
    }

    /// A fully opaque colour whose red, green and blue channels are each
    /// drawn uniformly from 0 to `CHANNEL_MAX` thousandths (see `rgba`).
    pub fn random_color() -> (c: Color)
        ensures
            c.is_opaque_rgba(),
    {
        let r = random_index(1001);
        let g = random_index(1001);
        let b = random_index(1001);
        Color::rgba(r as u16, g as u16, b as u16, CHANNEL_MAX)
    }
}

} // verus!
