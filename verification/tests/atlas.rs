use cosmic_text::{fontdb, CacheKey, CacheKeyFlags, FontSystem, SwashCache, Weight};
use heven::{GlyphAtlas, GlyphImage, SdfLevels, GLYPH_PADDING};

fn levels() -> SdfLevels {
    let mut levels = SdfLevels { blended: [0; 256], inside: [0; 65], outside: [0; 65] };
    for m in 0..256 {
        levels.blended[m] = 10 + (m / 2) as u8;
    }
    for d in 0..65 {
        levels.inside[d] = 200;
        levels.outside[d] = 10;
    }
    assert!(levels.is_ordered());
    levels
}

fn key(glyph_id: u16) -> CacheKey {
    CacheKey::new(fontdb::ID::dummy(), glyph_id, 32.0, (0.0, 0.0), Weight::NORMAL, CacheKeyFlags::empty()).0
}

fn image(width: u32, height: u32) -> GlyphImage {
    GlyphImage {
        mask: true,
        placement: [1, 2],
        size: [width, height],
        data: (1..=(width * height) as u8).collect(),
    }
}

fn empty_font_system() -> FontSystem {
    FontSystem::new_with_locale_and_db("en-US".to_string(), fontdb::Database::new())
}

#[test]
fn new_atlas_is_blank() {
    let atlas = GlyphAtlas::new(64, 32, false, levels());
    assert_eq!(atlas.size(), [64, 32]);
    assert_eq!(atlas.version(), 1);
    assert!(!atlas.uses_sdf());
    assert_eq!(atlas.pixels().len(), 64 * 32);
    assert!(atlas.pixels().iter().all(|&p| p == 0));
}

#[test]
fn first_glyph_goes_to_the_corner_with_padding() {
    let mut atlas = GlyphAtlas::new(64, 64, false, levels());
    let entry = atlas.insert_image(key(1), &image(2, 3)).unwrap();
    let p = GLYPH_PADDING;
    assert_eq!(entry.origin, [0, 0]);
    assert_eq!(entry.size, [2 + 2 * p, 3 + 2 * p]);
    assert_eq!(entry.placement, [1, 2]);
    assert_eq!(entry.scale, 1);
    assert_eq!(atlas.version(), 2);
    let pixels = atlas.pixels();
    assert_eq!(pixels[p * 64 + p], 1);
    assert_eq!(pixels[p * 64 + p + 1], 2);
    assert_eq!(pixels[(p + 2) * 64 + p + 1], 6);
    assert_eq!(pixels.iter().filter(|&&v| v != 0).count(), 6);
}

#[test]
fn glyphs_fill_a_row_then_wrap() {
    let mut atlas = GlyphAtlas::new(64, 64, false, levels());
    let first = atlas.insert_image(key(1), &image(2, 3)).unwrap();
    let second = atlas.insert_image(key(2), &image(2, 2)).unwrap();
    assert_eq!(second.origin, [first.size[0], 0]);
    let third = atlas.insert_image(key(3), &image(40, 1)).unwrap();
    assert_eq!(third.origin, [0, first.size[1]]);
    assert_eq!(atlas.version(), 4);
    let pixels = atlas.pixels();
    let p = GLYPH_PADDING;
    assert_eq!(pixels[p * 64 + first.size[0] + p], 1);
    assert_eq!(pixels[(first.size[1] + p) * 64 + p + 39], 40);
}

#[test]
fn glyph_too_large_is_not_placed() {
    let mut atlas = GlyphAtlas::new(32, 32, false, levels());
    assert!(atlas.insert_image(key(1), &image(17, 1)).is_none());
    assert_eq!(atlas.version(), 1);
    assert!(atlas.insert_image(key(1), &image(16, 1)).is_some());
}

#[test]
fn glyph_below_the_last_row_is_not_placed() {
    let mut atlas = GlyphAtlas::new(32, 40, false, levels());
    assert!(atlas.insert_image(key(1), &image(10, 10)).is_some());
    assert!(atlas.insert_image(key(2), &image(10, 10)).is_none());
    assert_eq!(atlas.version(), 2);
}

#[test]
fn color_glyphs_are_not_placed() {
    let mut atlas = GlyphAtlas::new(64, 64, false, levels());
    let mut color = image(2, 2);
    color.mask = false;
    assert!(atlas.insert_image(key(1), &color).is_none());
    assert_eq!(atlas.version(), 1);
    assert!(atlas.pixels().iter().all(|&p| p == 0));
}

#[test]
fn placed_glyphs_do_not_overlap() {
    let mut atlas = GlyphAtlas::new(128, 128, false, levels());
    let mut entries = Vec::new();
    for id in 0..20u16 {
        if let Some(entry) = atlas.insert_image(key(id), &image(1 + id as u32 % 7, 1 + id as u32 % 5)) {
            entries.push(entry);
        }
    }
    assert!(entries.len() > 5);
    for (i, a) in entries.iter().enumerate() {
        assert!(a.origin[0] + a.size[0] <= 128 && a.origin[1] + a.size[1] <= 128);
        for b in &entries[i + 1..] {
            let apart = a.origin[0] + a.size[0] <= b.origin[0]
                || b.origin[0] + b.size[0] <= a.origin[0]
                || a.origin[1] + a.size[1] <= b.origin[1]
                || b.origin[1] + b.size[1] <= a.origin[1];
            assert!(apart);
        }
    }
}

#[test]
fn sdf_atlas_reduces_glyphs_by_the_scale() {
    let mut atlas = GlyphAtlas::new(64, 64, true, levels());
    assert!(atlas.uses_sdf());
    let entry = atlas.insert_image(key(1), &image(4, 3)).unwrap();
    let p = GLYPH_PADDING;
    assert_eq!(entry.size, [2 + 2 * p, 1 + 2 * p]);
    assert_eq!(entry.scale, 3);
    // Far from the glyph every pixel is uncovered.
    assert_eq!(atlas.pixels()[0], 10);
}

#[test]
fn unknown_font_places_nothing() {
    let mut atlas = GlyphAtlas::new(64, 64, false, levels());
    let mut font_system = empty_font_system();
    let mut swash_cache = SwashCache::new();
    assert!(atlas.get_or_insert(&mut font_system, &mut swash_cache, key(7)).is_none());
    assert_eq!(atlas.version(), 1);
    assert!(matches!(swash_cache.image_cache.get(&key(7)), Some(None)));
    assert_eq!(swash_cache.image_cache.len(), 1);
}

#[test]
fn known_key_does_not_ask_the_rasterizer() {
    let mut atlas = GlyphAtlas::new(64, 64, false, levels());
    atlas.insert_image(key(7), &image(2, 2)).unwrap();
    let mut font_system = empty_font_system();
    let mut swash_cache = SwashCache::new();
    assert!(atlas.get_or_insert(&mut font_system, &mut swash_cache, key(7)).is_some());
    assert!(swash_cache.image_cache.is_empty());
}

#[test]
fn get_or_insert_returns_the_placed_entry() {
    let mut atlas = GlyphAtlas::new(64, 64, false, levels());
    let placed = atlas.insert_image(key(7), &image(3, 3)).unwrap();
    let mut font_system = empty_font_system();
    let mut swash_cache = SwashCache::new();
    let found = atlas.get_or_insert(&mut font_system, &mut swash_cache, key(7)).unwrap();
    assert_eq!(found.origin, placed.origin);
    assert_eq!(found.size, placed.size);
    assert_eq!(atlas.version(), 2);
    let again = atlas.get_or_insert(&mut font_system, &mut swash_cache, key(7)).unwrap();
    assert_eq!(again.origin, placed.origin);
    assert_eq!(atlas.version(), 2);
}

#[test]
fn later_glyphs_leave_earlier_pixels_alone() {
    let mut atlas = GlyphAtlas::new(64, 64, false, levels());
    let first = atlas.insert_image(key(1), &image(3, 2)).unwrap();
    let before: Vec<u8> = atlas.pixels().to_vec();
    for id in 2..6u16 {
        atlas.insert_image(key(id), &image(4, 4));
    }
    let after = atlas.pixels();
    for y in first.origin[1]..first.origin[1] + first.size[1] {
        for x in first.origin[0]..first.origin[0] + first.size[0] {
            assert_eq!(after[y * 64 + x], before[y * 64 + x]);
        }
    }
}

#[test]
fn replacing_a_key_places_a_new_rectangle() {
    let mut atlas = GlyphAtlas::new(64, 64, false, levels());
    let first = atlas.insert_image(key(1), &image(2, 2)).unwrap();
    let second = atlas.insert_image(key(1), &image(2, 2)).unwrap();
    assert_eq!(second.origin, [first.size[0], 0]);
    assert_eq!(atlas.version(), 3);
}

#[test]
fn glyph_with_short_data_is_not_placed() {
    let mut atlas = GlyphAtlas::new(64, 64, false, levels());
    let mut short = image(3, 3);
    short.data.truncate(8);
    assert!(atlas.insert_image(key(1), &short).is_none());
    assert_eq!(atlas.version(), 1);
    assert!(atlas.insert_image(key(1), &image(3, 3)).is_some());
    assert_eq!(atlas.insert_image(key(2), &image(3, 3)).unwrap().origin, [3 + 2 * GLYPH_PADDING, 0]);
}

#[test]
fn more_coverage_never_lowers_sdf_glyph_pixels() {
    let mut faint = GlyphAtlas::new(64, 64, true, levels());
    let mut strong = GlyphAtlas::new(64, 64, true, levels());
    let mut light = image(6, 6);
    let mut heavy = image(6, 6);
    for (i, (l, h)) in light.data.iter_mut().zip(heavy.data.iter_mut()).enumerate() {
        *l = if i % 3 == 0 { 0 } else { 100 };
        *h = if i % 2 == 0 { 255 } else { 100 };
    }
    let a = faint.insert_image(key(1), &light).unwrap();
    let b = strong.insert_image(key(1), &heavy).unwrap();
    assert_eq!(a.origin, b.origin);
    for (p, q) in faint.pixels().iter().zip(strong.pixels()) {
        assert!(p <= q);
    }
}
