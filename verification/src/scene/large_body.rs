//! Large gravitational bodies: the body types of the first generation of
//! the large-body system, and the modular large-body subsystem.
pub mod body_type;
pub mod lifecycle;
pub mod spawner;

use vstd::prelude::*;
use crate::graphics::{Color, PrimitiveType};

verus! {

/// Types of large gravitational bodies in the game.
#[derive(Debug, Clone, Copy, PartialEq, Eq, Structural)]
pub enum LargeBodyType {
    /// Massive gravitational body with extreme pull.
    BlackHole,
    /// Supermassive black hole that absorbs other bodies.
    BlackHoleLarge,
    /// Massive body with extreme repulsion (negative mass).
    WhiteHole,
    /// Small, dense, fast-spinning body.
    NeutronStar,
    /// Matter whose gravity oscillates.
    ExoticMatter,
    /// Large, bright body.
    Star,
    /// Very large body with strong gravity.
    GasGiant,
    /// Medium-sized world.
    Planet,
    /// Mass fired by the large-body launcher.
    LauncherMass,
    /// Small body for debugging.
    Debug,
}

/// Render colour of every body type but `Debug`, whose colour is random.
pub open spec fn body_color(t: LargeBodyType) -> Color {
    match t {
        LargeBodyType::BlackHole => Color::Magenta,
        LargeBodyType::BlackHoleLarge => Color::Magenta,
        LargeBodyType::WhiteHole => Color::White,
        LargeBodyType::NeutronStar => Color::Green,
        LargeBodyType::ExoticMatter => Color::Magenta,
        LargeBodyType::Star => Color::Red,
        LargeBodyType::GasGiant => Color::Yellow,
        LargeBodyType::Planet => Color::Cyan,
        LargeBodyType::LauncherMass => Color::White,
        LargeBodyType::Debug => Color::White,
    }
}

/// Primitive every body type is rendered with.
pub open spec fn body_primitive(t: LargeBodyType) -> PrimitiveType {
    match t {
        LargeBodyType::LauncherMass => PrimitiveType::Icosahedron,
        _ => PrimitiveType::Sphere,
    }
}

impl LargeBodyType {
    /// The colour for rendering this body type; a `Debug` body gets a
    /// random opaque colour.
    pub fn color(self) -> (c: Color)
        ensures
            self != LargeBodyType::Debug ==> c == body_color(self),
            self == LargeBodyType::Debug ==> c.is_opaque_rgba(),
    {
        match self {
            LargeBodyType::BlackHole => Color::Magenta,
            LargeBodyType::BlackHoleLarge => Color::Magenta,
            LargeBodyType::WhiteHole => Color::White,
            LargeBodyType::NeutronStar => Color::Green,
            LargeBodyType::ExoticMatter => Color::Magenta,
            LargeBodyType::Star => Color::Red,
            LargeBodyType::GasGiant => Color::Yellow,
            LargeBodyType::Planet => Color::Cyan,
            LargeBodyType::LauncherMass => Color::White,
            LargeBodyType::Debug => Color::random_color(),
        }
    }

    /// The primitive type for rendering.
    pub fn primitive_type(self) -> (p: PrimitiveType)
        ensures
            p == body_primitive(self),
    {
        match self {
            LargeBodyType::BlackHole => PrimitiveType::Sphere,
            LargeBodyType::BlackHoleLarge => PrimitiveType::Sphere,
            LargeBodyType::WhiteHole => PrimitiveType::Sphere,
            LargeBodyType::NeutronStar => PrimitiveType::Sphere,
            LargeBodyType::ExoticMatter => PrimitiveType::Sphere,
            LargeBodyType::Star => PrimitiveType::Sphere,
            LargeBodyType::GasGiant => PrimitiveType::Sphere,
            LargeBodyType::Planet => PrimitiveType::Sphere,
            LargeBodyType::LauncherMass => PrimitiveType::Icosahedron,
            LargeBodyType::Debug => PrimitiveType::Sphere,
        }
    }
}

} // verus!
