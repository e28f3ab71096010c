//! Body types of the modular large-body subsystem.
use vstd::prelude::*;
use crate::graphics::{Color, PrimitiveType, CHANNEL_MAX};

verus! {

/// Types of large gravitational bodies in the game.
#[derive(Debug, Clone, Copy, PartialEq, Eq, Structural)]
pub enum LargeBodyType {
    /// Massive gravitational body with extreme pull.
    BlackHole,
    /// Supermassive black hole that absorbs other bodies.
    BlackHoleLarge,
    /// Massive body with extreme repulsion (negative mass).
    WhiteHole,
    /// Small, dense, fast-spinning body.
    NeutronStar,
    /// Matter whose gravity oscillates.
    ExoticMatter,
    /// Large, bright body.
    Star,
    /// Very large body with strong gravity.
    GasGiant,
    /// Medium-sized world.
    Planet,
    /// Mass fired by the large-body launcher.
    LauncherMass,
    /// Small body for debugging.
    Debug,
}

/// Render colour of every body type but `Debug`, whose colour is random.
pub open spec fn body_color(t: LargeBodyType) -> Color {
    match t {
        LargeBodyType::BlackHole => Color::Magenta,
        LargeBodyType::BlackHoleLarge => Color::Magenta,
        LargeBodyType::WhiteHole => Color::White,
        LargeBodyType::NeutronStar => Color::Green,
        LargeBodyType::ExoticMatter => Color::Pink,
        LargeBodyType::Star => Color::Red,
        LargeBodyType::GasGiant => Color::Yellow,
        LargeBodyType::Planet => Color::Navy,
        LargeBodyType::LauncherMass => Color::White,
        LargeBodyType::Debug => Color::White,
    }
}

/// Atmosphere colour of every body type.
pub open spec fn body_atmosphere_color(t: LargeBodyType) -> Color {
    match t {
        LargeBodyType::BlackHole => Color::Purple,
        LargeBodyType::BlackHoleLarge => Color::Purple,
        LargeBodyType::Star => Color::Orange,
        LargeBodyType::GasGiant => Color::Yellow,
        LargeBodyType::Planet => Color::Cyan,
        LargeBodyType::NeutronStar => Color::Green,
        LargeBodyType::ExoticMatter => Color::Pink,
        _ => Color::Rgba { r: CHANNEL_MAX, g: CHANNEL_MAX, b: CHANNEL_MAX, a: 100 },
    }
}

/// Primitive every body type is rendered with.
pub open spec fn body_primitive(t: LargeBodyType) -> PrimitiveType {
    match t {
        LargeBodyType::LauncherMass => PrimitiveType::Icosahedron,
        _ => PrimitiveType::Sphere,
    }
}

impl LargeBodyType {
    /// The colour for rendering this body type; a `Debug` body gets a
    /// random opaque colour.
    pub fn color(self) -> (c: Color)
        ensures
            self != LargeBodyType::Debug ==> c == body_color(self),
            self == LargeBodyType::Debug ==> c.is_opaque_rgba(),
    {
        match self {
            LargeBodyType::BlackHole => Color::Magenta,
            LargeBodyType::BlackHoleLarge => Color::Magenta,
            LargeBodyType::WhiteHole => Color::White,
            LargeBodyType::NeutronStar => Color::Green,
            LargeBodyType::ExoticMatter => Color::Pink,
            LargeBodyType::Star => Color::Red,
            LargeBodyType::GasGiant => Color::Yellow,
            LargeBodyType::Planet => Color::Navy,
            LargeBodyType::LauncherMass => Color::White,
            LargeBodyType::Debug => Color::random_color(),
        }
    }

    /// The primitive type for rendering.
    pub fn primitive_type(self) -> (p: PrimitiveType)
        ensures
            p == body_primitive(self),
    {
        match self {
            LargeBodyType::BlackHole => PrimitiveType::Sphere,
            LargeBodyType::BlackHoleLarge => PrimitiveType::Sphere,
            LargeBodyType::WhiteHole => PrimitiveType::Sphere,
            LargeBodyType::NeutronStar => PrimitiveType::Sphere,
            LargeBodyType::ExoticMatter => PrimitiveType::Sphere,
            LargeBodyType::Star => PrimitiveType::Sphere,
            LargeBodyType::GasGiant => PrimitiveType::Sphere,
            LargeBodyType::Planet => PrimitiveType::Sphere,
            LargeBodyType::LauncherMass => PrimitiveType::Icosahedron,
            LargeBodyType::Debug => PrimitiveType::Sphere,
        }
    }

    /// Atmosphere colour; bodies without an atmosphere get a faint
    /// translucent white.
    pub fn atmosphere_color(self) -> (c: Color)
        ensures
            c == body_atmosphere_color(self),
            c.wf(),
    {
        match self {
            LargeBodyType::BlackHole => Color::Purple,
            LargeBodyType::BlackHoleLarge => Color::Purple,
            LargeBodyType::Star => Color::Orange,
            LargeBodyType::GasGiant => Color::Yellow,
            LargeBodyType::Planet => Color::Cyan,
            LargeBodyType::NeutronStar => Color::Green,
            LargeBodyType::ExoticMatter => Color::Pink,
            _ => Color::rgba(CHANNEL_MAX, CHANNEL_MAX, CHANNEL_MAX, 100),
        }
    }
}

/// The faint translucent white of bodies without an atmosphere.
pub open spec fn faint_white() -> Color {
    Color::Rgba { r: CHANNEL_MAX, g: CHANNEL_MAX, b: CHANNEL_MAX, a: 100 }
}

/// Stars, gas giants, planets, neutron stars and black holes are drawn
/// with a coloured atmosphere layer; white holes, launcher masses and
/// debug bodies only get the faint translucent white.
pub proof fn lemma_atmospheres(t: LargeBodyType)
    ensures
        (t == LargeBodyType::Star || t == LargeBodyType::GasGiant || t == LargeBodyType::Planet || t
            == LargeBodyType::NeutronStar || t == LargeBodyType::BlackHole) ==> (body_atmosphere_color(t) != faint_white()),
        (t == LargeBodyType::WhiteHole || t == LargeBodyType::LauncherMass || t == LargeBodyType::Debug)
            ==> (body_atmosphere_color(t) == faint_white()),
        body_primitive(t) == PrimitiveType::Icosahedron <==> t == LargeBodyType::LauncherMass,
{
}

} // verus!
