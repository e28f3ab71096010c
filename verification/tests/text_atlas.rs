use gravity_scene::ui::text_renderer::{
    buffer_capacity_for, quad_indices, GlyphAtlas, GlyphSlot, INDEX_BUFFER_MIN_CAPACITY,
    VERTEX_BUFFER_MIN_CAPACITY,
};

fn slot(x: u32, y: u32, width: u32, height: u32) -> GlyphSlot {
    GlyphSlot { x, y, width, height }
}

fn overlap(a: GlyphSlot, b: GlyphSlot) -> bool {
    a.x < b.x + b.width && b.x < a.x + a.width && a.y < b.y + b.height && b.y < a.y + a.height
}

#[test]
fn new_atlas_is_square_and_empty() {
    let atlas = GlyphAtlas::new(256);
    assert_eq!(atlas.width(), 256);
    assert_eq!(atlas.height(), 256);
    assert_eq!(atlas.cached_glyph('a', 16), None);
}

#[test]
fn first_glyph_goes_to_the_top_left() {
    let mut atlas = GlyphAtlas::new(64);
    assert_eq!(atlas.get_or_cache_glyph('a', 16, 10, 12, 120), Some(slot(0, 0, 10, 12)));
    assert_eq!(atlas.cached_glyph('a', 16), Some(slot(0, 0, 10, 12)));
}

#[test]
fn glyphs_on_one_shelf_sit_side_by_side() {
    let mut atlas = GlyphAtlas::new(64);
    atlas.get_or_cache_glyph('a', 16, 10, 12, 120);
    assert_eq!(atlas.get_or_cache_glyph('b', 16, 7, 20, 140), Some(slot(10, 0, 7, 20)));
    assert_eq!(atlas.get_or_cache_glyph('c', 16, 5, 4, 20), Some(slot(17, 0, 5, 4)));
}

#[test]
fn cached_glyph_is_returned_unchanged() {
    let mut atlas = GlyphAtlas::new(64);
    let first = atlas.get_or_cache_glyph('q', 24, 9, 11, 99);
    let again = atlas.get_or_cache_glyph('q', 24, 30, 30, 900);
    assert_eq!(first, again);
    // the pen did not move for the cached glyph
    assert_eq!(atlas.get_or_cache_glyph('r', 24, 3, 3, 9), Some(slot(9, 0, 3, 3)));
}

#[test]
fn same_character_at_another_size_is_a_new_glyph() {
    let mut atlas = GlyphAtlas::new(64);
    atlas.get_or_cache_glyph('a', 16, 10, 12, 120);
    assert_eq!(atlas.get_or_cache_glyph('a', 32, 20, 24, 480), Some(slot(10, 0, 20, 24)));
}

#[test]
fn glyph_past_the_right_edge_opens_a_new_shelf() {
    let mut atlas = GlyphAtlas::new(64);
    atlas.get_or_cache_glyph('a', 16, 40, 12, 480);
    atlas.get_or_cache_glyph('b', 16, 20, 15, 300);
    // 60 + 10 > 64: new shelf below the tallest glyph of the first one
    assert_eq!(atlas.get_or_cache_glyph('c', 16, 10, 8, 80), Some(slot(0, 15, 10, 8)));
}

#[test]
fn glyph_exactly_filling_the_row_stays_on_it() {
    let mut atlas = GlyphAtlas::new(64);
    atlas.get_or_cache_glyph('a', 16, 40, 12, 480);
    assert_eq!(atlas.get_or_cache_glyph('b', 16, 24, 12, 288), Some(slot(40, 0, 24, 12)));
}

#[test]
fn empty_bitmap_gets_no_slot() {
    let mut atlas = GlyphAtlas::new(64);
    assert_eq!(atlas.get_or_cache_glyph(' ', 16, 0, 0, 0), None);
    assert_eq!(atlas.cached_glyph(' ', 16), None);
    assert_eq!(atlas.get_or_cache_glyph('a', 16, 10, 12, 120), Some(slot(0, 0, 10, 12)));
}

#[test]
fn glyph_past_the_bottom_edge_gets_no_slot() {
    let mut atlas = GlyphAtlas::new(32);
    assert_eq!(atlas.get_or_cache_glyph('a', 16, 10, 40, 400), None);
    assert_eq!(atlas.cached_glyph('a', 16), None);
}

#[test]
fn refused_glyph_still_moves_the_pen_to_a_new_shelf() {
    let mut atlas = GlyphAtlas::new(32);
    atlas.get_or_cache_glyph('a', 16, 20, 10, 200);
    // needs a new shelf at y = 10, then does not fit: 10 + 30 > 32
    assert_eq!(atlas.get_or_cache_glyph('b', 16, 20, 30, 600), None);
    // the new shelf stays open
    assert_eq!(atlas.get_or_cache_glyph('c', 16, 4, 4, 16), Some(slot(0, 10, 4, 4)));
}

#[test]
fn glyph_wider_than_the_atlas_starts_at_the_left_edge() {
    let mut atlas = GlyphAtlas::new(32);
    atlas.get_or_cache_glyph('a', 16, 10, 10, 100);
    assert_eq!(atlas.get_or_cache_glyph('W', 64, 50, 8, 400), Some(slot(0, 10, 50, 8)));
}

#[test]
fn placed_glyphs_never_share_a_pixel() {
    let mut atlas = GlyphAtlas::new(48);
    let sizes: [(u32, u32); 10] =
        [(10, 12), (7, 20), (30, 5), (12, 12), (20, 9), (48, 3), (5, 5), (9, 14), (16, 8), (3, 30)];
    let mut placed = Vec::new();
    for (i, (w, h)) in sizes.iter().enumerate() {
        let c = char::from(b'a' + i as u8);
        if let Some(s) = atlas.get_or_cache_glyph(c, 16, *w, *h, (*w * *h) as usize) {
            assert!(s.y + s.height <= 48);
            assert!(s.x + s.width <= 48);
            placed.push(s);
        }
    }
    assert!(placed.len() >= 6);
    for i in 0..placed.len() {
        for j in 0..placed.len() {
            if i != j {
                assert!(!overlap(placed[i], placed[j]));
            }
        }
    }
}

#[test]
fn quad_indices_make_two_triangles() {
    assert_eq!(quad_indices(0), [0, 1, 2, 0, 2, 3]);
    assert_eq!(quad_indices(4), [4, 5, 6, 4, 6, 7]);
    assert_eq!(quad_indices(65532), [65532, 65533, 65534, 65532, 65534, 65535]);
}

#[test]
fn buffer_keeps_its_capacity_while_it_fits() {
    assert_eq!(buffer_capacity_for(10, 20, VERTEX_BUFFER_MIN_CAPACITY), 20);
    assert_eq!(buffer_capacity_for(20, 20, VERTEX_BUFFER_MIN_CAPACITY), 20);
}

#[test]
fn buffer_grows_to_at_least_the_minimum() {
    assert_eq!(buffer_capacity_for(10, 5, VERTEX_BUFFER_MIN_CAPACITY), 1000);
    assert_eq!(buffer_capacity_for(10, 5, INDEX_BUFFER_MIN_CAPACITY), 1500);
}

#[test]
fn buffer_grows_to_twice_the_need() {
    assert_eq!(buffer_capacity_for(800, 700, VERTEX_BUFFER_MIN_CAPACITY), 1600);
    assert_eq!(buffer_capacity_for(1000, 0, INDEX_BUFFER_MIN_CAPACITY), 2000);
}
