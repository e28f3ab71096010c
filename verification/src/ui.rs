//! On-screen text: styles, and the glyph atlas behind text drawing.
use vstd::prelude::*;
use crate::graphics::Color;

pub mod text_renderer;

verus! {

/// Horizontal anchoring of a text element.
#[derive(Debug, Clone, Copy, PartialEq, Eq, Structural)]
pub enum HorizontalAlign {
    Left,
    Center,
    Right,
}

/// Vertical anchoring of a text element.
#[derive(Debug, Clone, Copy, PartialEq, Eq, Structural)]
pub enum VerticalAlign {
    Top,
    Center,
    Bottom,
}

/// Font size used when none is given.
pub const DEFAULT_FONT_SIZE: u32 = 16;

/// How a text element is drawn.
#[derive(Debug, Clone, Copy, PartialEq, Eq, Structural)]
pub struct TextStyle {
    pub font_size: u32,
    pub color: Color,
    pub align_h: HorizontalAlign,
    pub align_v: VerticalAlign,
}

impl Default for TextStyle {
    /// White text of the default size, anchored top left.
    fn default() -> (s: TextStyle)
        ensures
            s.font_size == DEFAULT_FONT_SIZE,
            s.color == Color::White,
            s.align_h == HorizontalAlign::Left,
            s.align_v == VerticalAlign::Top,
    {
        TextStyle {
            font_size: DEFAULT_FONT_SIZE,
            color: Color::White,
            align_h: HorizontalAlign::Left,
            align_v: VerticalAlign::Top,
        }
    }
}

impl TextStyle {
    /// A style with the given size and colour, anchored top left.
    pub fn new(font_size: u32, color: Color) -> (s: TextStyle)
        ensures
            s.font_size == font_size,
            s.color == color,
            s.align_h == HorizontalAlign::Left,
            s.align_v == VerticalAlign::Top,
    {
        TextStyle { font_size, color, ..Default::default() }
    }

    /// The same style with new anchoring.
    pub fn with_alignment(self, h_align: HorizontalAlign, v_align: VerticalAlign) -> (s: TextStyle)
        ensures
            s.font_size == self.font_size,
            s.color == self.color,
            s.align_h == h_align,
            s.align_v == v_align,
    {
        let mut s = self;
        s.align_h = h_align;
        s.align_v = v_align;
        s
    }
}

} // verus!
