//! Glyph atlas packing for on-screen text: where each rasterised glyph goes
//! in the atlas texture, the glyph cache keyed by character and font size,
//! the index list of a glyph quad, and how the text buffers grow.
use vstd::prelude::*;

verus! {

/// Smallest vertex capacity a text vertex buffer is given when it grows.
pub const VERTEX_BUFFER_MIN_CAPACITY: usize = 1000;

/// Smallest index capacity a text index buffer is given when it grows.
pub const INDEX_BUFFER_MIN_CAPACITY: usize = 1500;

/// The rectangle of atlas pixels that holds one glyph's bitmap.
#[derive(Debug, Clone, Copy, PartialEq, Eq, Structural)]
pub struct GlyphSlot {
    pub x: u32,
    pub y: u32,
    pub width: u32,
    pub height: u32,
}

/// Whether two pixel rectangles share a pixel.
pub open spec fn slots_overlap(a: GlyphSlot, b: GlyphSlot) -> bool {
    &&& a.x < b.x + b.width
    &&& b.x < a.x + a.width
    &&& a.y < b.y + b.height
    &&& b.y < a.y + a.height
}

/// Whether a slot lies inside a `width` x `height` atlas. A glyph wider
/// than the atlas is the one exception: it starts at the left edge.
pub open spec fn slot_within(s: GlyphSlot, width: int, height: int) -> bool {
    &&& s.y + s.height <= height
    &&& s.x + s.width <= width || (s.x == 0 && s.width > width)
}

/// The glyph cached last under `(character, font_size)`, if any.
pub open spec fn glyph_of(entries: Seq<(char, u32, GlyphSlot)>, character: char, font_size: u32) -> Option<GlyphSlot>
    decreases entries.len(),
{
    if entries.len() == 0 {
        None
    } else if entries.last().0 == character && entries.last().1 == font_size {
        Some(entries.last().2)
    } else {
        glyph_of(entries.drop_last(), character, font_size)
    }
}

/// The pen `(x, y, shelf height)` after making room for a glyph `w` pixels
/// wide: a glyph that would run past the right edge opens a new shelf
/// below the current one.
pub open spec fn pen_for(pen: (int, int, int), w: int, width: int) -> (int, int, int) {
    if pen.0 + w > width {
        (0, pen.1 + pen.2, 0)
    } else {
        pen
    }
}

/// Whether an already placed slot is out of the way of the pen: on an
/// earlier shelf, or on the current shelf left of the pen and no taller
/// than the shelf.
spec fn settled(s: GlyphSlot, pen: (int, int, int)) -> bool {
    s.y + s.height <= pen.1 || (s.y == pen.1 && s.x + s.width <= pen.0 && s.height <= pen.2)
}

/// Shelf packer of the glyph atlas texture, with its glyph cache.
#[derive(Debug)]
pub struct GlyphAtlas {
    width: u32,
    height: u32,
    glyph_cache: Vec<(char, u32, GlyphSlot)>,
    current_x: u32,
    current_y: u32,
    row_height: u32,
}

impl GlyphAtlas {
    /// The atlas texture's width and height in pixels.
    pub closed spec fn dims(self) -> (int, int) {
        (self.width as int, self.height as int)
    }

    /// The atlas texture's width in pixels.
    pub fn width(&self) -> (r: u32)
        ensures
            r == self.dims().0,
    {
        self.width
    }

    /// The atlas texture's height in pixels.
    pub fn height(&self) -> (r: u32)
        ensures
            r == self.dims().1,
    {
        self.height
    }

    /// The cached glyphs, in the order they were placed.
    pub closed spec fn entries(self) -> Seq<(char, u32, GlyphSlot)> {
        self.glyph_cache@
    }

    /// The pen: where the next glyph goes, and the height of the current shelf.
    pub closed spec fn pen(self) -> (int, int, int) {
        (self.current_x as int, self.current_y as int, self.row_height as int)
    }

    /// Each key is cached once, every slot lies in the atlas, no two slots
    /// share a pixel, and every slot is out of the pen's way.
    #[verifier::type_invariant]
    pub closed spec fn wf(self) -> bool {
        let e = self.glyph_cache@;
        &&& self.current_y + self.row_height <= self.height
        &&& forall|i: int, j: int|
            0 <= i < j < e.len() ==> !(#[trigger] e[i].0 == #[trigger] e[j].0 && e[i].1 == e[j].1)
        &&& forall|i: int|
            0 <= i < e.len() ==> slot_within(#[trigger] e[i].2, self.width as int, self.height as int)
                && settled(e[i].2, self.pen())
        &&& forall|i: int, j: int|
            0 <= i < e.len() && 0 <= j < e.len() && i != j ==> !slots_overlap(
                #[trigger] e[i].2,
                #[trigger] e[j].2,
            )
    }

    /// An empty square atlas with the pen at the top left.
    pub fn new(initial_size: u32) -> (a: GlyphAtlas)
        ensures
            a.dims() == (initial_size as int, initial_size as int),
            a.entries() == Seq::<(char, u32, GlyphSlot)>::empty(),
            a.pen() == (0int, 0int, 0int),
    {
        GlyphAtlas {
            width: initial_size,
            height: initial_size,
            glyph_cache: Vec::new(),
            current_x: 0,
            current_y: 0,
            row_height: 0,
        }
    }

    /// The slot of the glyph cached under `(character, font_size)`.
    pub fn cached_glyph(&self, character: char, font_size: u32) -> (r: Option<GlyphSlot>)
        ensures
            r == glyph_of(self.entries(), character, font_size),
    {
        let mut i = self.glyph_cache.len();
        assert(self.entries().take(i as int) =~= self.entries());
        while i > 0
            invariant
                i <= self.glyph_cache.len(),
                glyph_of(self.entries(), character, font_size) == glyph_of(
                    self.entries().take(i as int),
                    character,
                    font_size,
                ),
            decreases i,
        {
            let entry = self.glyph_cache[i - 1];
            proof {
                let t = self.entries().take(i as int);
                assert(t.drop_last() =~= self.entries().take(i - 1));
                assert(t.last() == entry);
            }
            if entry.0 == character && entry.1 == font_size {
                return Some(entry.2);
            }
            i = i - 1;
        }
        proof {
            assert(self.entries().take(0) =~= Seq::<(char, u32, GlyphSlot)>::empty());
        }
        None
    }

    /// The slot of the glyph `(character, font_size)`: the cached one when
    /// there is one and nothing changes. Otherwise a glyph with an empty
    /// bitmap gets none and nothing changes; any other first makes room on
    /// the pen's shelf (see `pen_for`), then gets none when it would run
    /// past the bottom edge, or else is placed at the pen, cached, and the
    /// pen moves right past it.
    pub fn get_or_cache_glyph(
        &mut self,
        character: char,
        font_size: u32,
        glyph_width: u32,
        glyph_height: u32,
        bitmap_len: usize,
    ) -> (r: Option<GlyphSlot>)
        ensures
            final(self).dims() == old(self).dims(),
            r is Some ==> glyph_of(final(self).entries(), character, font_size) == r,
            glyph_of(old(self).entries(), character, font_size) is Some ==> {
                &&& r == glyph_of(old(self).entries(), character, font_size)
                &&& *final(self) == *old(self)
            },
            glyph_of(old(self).entries(), character, font_size) is None && bitmap_len == 0 ==> {
                &&& r is None
                &&& *final(self) == *old(self)
            },
            glyph_of(old(self).entries(), character, font_size) is None && bitmap_len > 0 ==> {
                let pen = pen_for(old(self).pen(), glyph_width as int, old(self).dims().0);
                let slot = GlyphSlot {
                    x: pen.0 as u32,
                    y: pen.1 as u32,
                    width: glyph_width,
                    height: glyph_height,
                };
                if pen.1 + glyph_height > old(self).dims().1 {
                    &&& r is None
                    &&& final(self).entries() == old(self).entries()
                    &&& final(self).pen() == pen
                } else {
                    &&& r == Some(slot)
                    &&& final(self).entries() == old(self).entries().push((character, font_size, slot))
                    &&& final(self).pen() == (
                        pen.0 + glyph_width,
                        pen.1,
                        if pen.2 >= glyph_height { pen.2 } else { glyph_height as int },
                    )
                }
            },
    {
        if let Some(slot) = self.cached_glyph(character, font_size) {
            return Some(slot);
        }
        if bitmap_len == 0 {
            return None;
        }
        proof {
            use_type_invariant(&*self);
        }
        let ghost pre = *self;
        let ghost pen = pen_for(pre.pen(), glyph_width as int, pre.width as int);
        let wraps = (self.current_x as u64) + (glyph_width as u64) > (self.width as u64);
        let x = if wraps { 0 } else { self.current_x };
        let y = if wraps { self.current_y + self.row_height } else { self.current_y };
        let row = if wraps { 0 } else { self.row_height };
        let width = self.width;
        let height = self.height;
        let mut cache: Vec<(char, u32, GlyphSlot)> = Vec::new();
        std::mem::swap(&mut cache, &mut self.glyph_cache);
        assert(cache@ == pre.glyph_cache@);
        assert((x as int, y as int, row as int) == pen);
        proof {
            let e = cache@;
            assert forall|i: int| 0 <= i < e.len() implies settled(#[trigger] e[i].2, pen) by {
                assert(settled(e[i].2, pre.pen()));
            }
        }
        if (y as u64) + (glyph_height as u64) > (height as u64) {
            *self = GlyphAtlas { width, height, glyph_cache: cache, current_x: x, current_y: y, row_height: row };
            return None;
        }
        let slot = GlyphSlot { x, y, width: glyph_width, height: glyph_height };
        proof {
            lemma_absent_key_not_cached(pre.glyph_cache@, character, font_size);
        }
        let new_row = if glyph_height > row { glyph_height } else { row };
        cache.push((character, font_size, slot));
        let ghost new_pen = ((x + glyph_width) as int, y as int, new_row as int);
        proof {
            let e = cache@;
            let n = pre.glyph_cache@.len() as int;
            assert(e[n] == (character, font_size, slot));
            assert(e.last() == (character, font_size, slot));
            assert forall|i: int| 0 <= i < n implies !slots_overlap(#[trigger] e[i].2, slot)
                && !slots_overlap(slot, e[i].2) by {
                assert(e[i] == pre.glyph_cache@[i]);
                assert(settled(e[i].2, pen));
            }
            assert forall|i: int| 0 <= i < e.len() implies slot_within(
                #[trigger] e[i].2,
                width as int,
                height as int,
            ) && settled(e[i].2, new_pen) by {
                if i < n {
                    assert(e[i] == pre.glyph_cache@[i]);
                    assert(settled(e[i].2, pen));
                }
            }
            assert forall|i: int, j: int|
                0 <= i < e.len() && 0 <= j < e.len() && i != j implies !slots_overlap(
                #[trigger] e[i].2,
                #[trigger] e[j].2,
            ) by {
                if i < n && j < n {
                    assert(e[i] == pre.glyph_cache@[i]);
                    assert(e[j] == pre.glyph_cache@[j]);
                }
            }
            assert forall|i: int, j: int|
                0 <= i < j < e.len() implies !(#[trigger] e[i].0 == #[trigger] e[j].0 && e[i].1
                == e[j].1) by {
                assert(e[i] == pre.glyph_cache@[i]);
                if j < n {
                    assert(e[j] == pre.glyph_cache@[j]);
                }
            }
        }
        *self = GlyphAtlas {
            width,
            height,
            glyph_cache: cache,
            current_x: x + glyph_width,
            current_y: y,
            row_height: new_row,
        };
        Some(slot)
    }
}

/// A key that the cache does not find is in no entry.
proof fn lemma_absent_key_not_cached(entries: Seq<(char, u32, GlyphSlot)>, character: char, font_size: u32)
    requires
        glyph_of(entries, character, font_size) is None,
    ensures
        forall|i: int|
            0 <= i < entries.len() ==> !(#[trigger] entries[i].0 == character && entries[i].1
                == font_size),
    decreases entries.len(),
{
    if entries.len() > 0 {
        lemma_absent_key_not_cached(entries.drop_last(), character, font_size);
        assert forall|i: int| 0 <= i < entries.len() implies !(#[trigger] entries[i].0 == character
            && entries[i].1 == font_size) by {
            if i < entries.len() - 1 {
                assert(entries[i] == entries.drop_last()[i]);
            }
        }
    }
}

/// The glyphs of a well-formed atlas: each key cached once, every slot in
/// the atlas (a glyph wider than the atlas at its left edge), and no two
/// slots sharing a pixel.
pub proof fn lemma_placed_glyphs(atlas: &GlyphAtlas)
    requires
        atlas.wf(),
    ensures
        forall|i: int, j: int|
            0 <= i < j < atlas.entries().len() ==> !(#[trigger] atlas.entries()[i].0
                == #[trigger] atlas.entries()[j].0 && atlas.entries()[i].1 == atlas.entries()[j].1),
        forall|i: int|
            0 <= i < atlas.entries().len() ==> slot_within(
                #[trigger] atlas.entries()[i].2,
                atlas.dims().0,
                atlas.dims().1,
            ),
        forall|i: int, j: int|
            0 <= i < atlas.entries().len() && 0 <= j < atlas.entries().len() && i != j
                ==> !slots_overlap(#[trigger] atlas.entries()[i].2, #[trigger] atlas.entries()[j].2),
{
}

/// The indices of the two triangles of a glyph quad whose corners are the
/// vertices `base_index` to `base_index + 3`, clockwise from the top left.
pub fn quad_indices(base_index: u16) -> (r: [u16; 6])
    requires
        base_index + 3 <= u16::MAX,
    ensures
        r@ == seq![
            base_index,
            (base_index + 1) as u16,
            (base_index + 2) as u16,
            base_index,
            (base_index + 2) as u16,
            (base_index + 3) as u16,
        ],
{
    let r = [base_index, base_index + 1, base_index + 2, base_index, base_index + 2, base_index + 3];
    assert(r@ =~= seq![
        base_index,
        (base_index + 1) as u16,
        (base_index + 2) as u16,
        base_index,
        (base_index + 2) as u16,
        (base_index + 3) as u16,
    ]);
    r
}

/// The capacity a text buffer holding `capacity` items has once `needed`
/// items are to be written to it: unchanged while they fit, else twice
/// the need and at least `minimum`.
pub fn buffer_capacity_for(needed: usize, capacity: usize, minimum: usize) -> (r: usize)
    requires
        needed * 2 <= usize::MAX,
    ensures
        needed <= capacity ==> r == capacity,
        needed > capacity ==> r == (if 2 * needed >= minimum { 2 * needed } else { minimum as int }),
        needed <= r,
{
    if needed > capacity {
        let doubled = needed * 2;
        if doubled >= minimum {
            doubled
        } else {
            minimum
        }
    } else {
        capacity
    }
}

} // verus!
