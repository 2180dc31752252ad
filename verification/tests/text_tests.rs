use sage::text::atlas::{Atlas, GlyphError, TextAtlas};
use sage::text::key::glyph_key;
use sage::text::packing::{AtlasRect, GlyphContent, Placement};

fn placement(width: u32, height: u32) -> Placement {
    Placement { left: 1, top: -2, width, height }
}

fn holds(rect: AtlasRect, width: u32, height: u32) -> bool {
    (rect.max_x - rect.min_x) as i64 >= width as i64 && (rect.max_y - rect.min_y) as i64 >= height as i64
}

#[test]
fn new_atlas_is_empty() {
    let atlas = Atlas::new();
    assert_eq!(atlas.size(), 128);
    assert!(!atlas.contains(7));
}

#[test]
fn allocate_no_grow_places_small_glyph() {
    let mut atlas = Atlas::new();
    let info = atlas.allocate_no_grow(7, placement(10, 12), GlyphContent::Mask).unwrap();
    assert_eq!(info.placement, placement(10, 12));
    assert_eq!(info.content, GlyphContent::Mask);
    assert!(holds(info.atlas_rect, 10, 12));
    assert!(atlas.contains(7));
    assert_eq!(atlas.lookup(7), Some(info));
    assert_eq!(atlas.lookup(8), None);
}

#[test]
fn allocate_no_grow_refuses_glyph_larger_than_atlas() {
    let mut atlas = Atlas::new();
    assert_eq!(atlas.allocate_no_grow(7, placement(200, 200), GlyphContent::Color), None);
    assert!(!atlas.contains(7));
    assert_eq!(atlas.size(), 128);
}

#[test]
fn grow_doubles_below_limit() {
    let mut atlas = Atlas::new();
    assert!(atlas.grow(4096));
    assert_eq!(atlas.size(), 256);
    assert!(!atlas.grow(511));
    assert_eq!(atlas.size(), 256);
    assert!(atlas.grow(512));
    assert_eq!(atlas.size(), 512);
}

#[test]
fn allocate_grows_for_large_glyph() {
    let mut atlas = Atlas::new();
    let (grew, info) = atlas.allocate(3, placement(200, 150), GlyphContent::Color, 4096).unwrap();
    assert!(grew);
    assert_eq!(atlas.size(), 256);
    assert!(holds(info.atlas_rect, 200, 150));
    assert!(atlas.contains(3));
}

#[test]
fn allocate_without_growth_reports_no_growth() {
    let mut atlas = Atlas::new();
    let (grew, info) = atlas.allocate(3, placement(20, 20), GlyphContent::Color, 4096).unwrap();
    assert!(!grew);
    assert_eq!(atlas.size(), 128);
    assert!(holds(info.atlas_rect, 20, 20));
}

#[test]
fn allocate_fails_when_atlas_cannot_grow() {
    let mut atlas = Atlas::new();
    assert_eq!(
        atlas.allocate(3, placement(200, 150), GlyphContent::Color, 255),
        Err(GlyphError::AtlasFull)
    );
    assert_eq!(atlas.size(), 128);
    assert!(!atlas.contains(3));
}

#[test]
fn unused_glyph_is_evicted() {
    let mut atlas = Atlas::new();
    assert!(atlas.allocate_no_grow(1, placement(128, 128), GlyphContent::Mask).is_some());
    atlas.trim();
    assert!(atlas.contains(1));
    let info = atlas.allocate_no_grow(2, placement(128, 128), GlyphContent::Mask).unwrap();
    assert!(holds(info.atlas_rect, 128, 128));
    assert!(!atlas.contains(1));
    assert!(atlas.contains(2));
}

#[test]
fn protected_glyph_is_kept() {
    let mut atlas = Atlas::new();
    assert!(atlas.allocate_no_grow(1, placement(128, 128), GlyphContent::Mask).is_some());
    assert_eq!(atlas.allocate_no_grow(2, placement(128, 128), GlyphContent::Mask), None);
    assert!(atlas.contains(1));
    assert!(!atlas.contains(2));
}

#[test]
fn lookup_protects_trimmed_glyph() {
    let mut atlas = Atlas::new();
    assert!(atlas.allocate_no_grow(1, placement(128, 128), GlyphContent::Mask).is_some());
    atlas.trim();
    assert!(atlas.lookup(1).is_some());
    assert_eq!(atlas.allocate_no_grow(2, placement(128, 128), GlyphContent::Mask), None);
    assert!(atlas.contains(1));
}

#[test]
fn eviction_stops_at_first_protected_glyph() {
    let mut atlas = Atlas::new();
    assert!(atlas.allocate_no_grow(1, placement(128, 60), GlyphContent::Mask).is_some());
    atlas.trim();
    assert!(atlas.allocate_no_grow(2, placement(128, 60), GlyphContent::Mask).is_some());
    // The first glyph is not protected and goes; the second one is and stays.
    assert_eq!(atlas.allocate_no_grow(3, placement(128, 100), GlyphContent::Mask), None);
    assert!(!atlas.contains(1));
    assert!(atlas.contains(2));
}

#[test]
fn text_atlas_records_empty_image() {
    let mut text = TextAtlas::new();
    let info = text.insert_image(9, placement(0, 5), GlyphContent::Color, 4096).unwrap();
    assert_eq!(info.atlas_rect, AtlasRect { min_x: 0, min_y: 0, max_x: 0, max_y: 0 });
    assert_eq!(info.placement, placement(0, 5));
    assert_eq!(text.get(9), Some(info));
    assert_eq!(text.color_size(), 128);
    assert_eq!(text.mask_size(), 128);
}

#[test]
fn text_atlas_routes_by_content() {
    let mut text = TextAtlas::new();
    let mask = text.insert_image(1, placement(200, 10), GlyphContent::SubpixelMask, 4096).unwrap();
    assert_eq!(text.mask_size(), 256);
    assert_eq!(text.color_size(), 128);
    let color = text.insert_image(2, placement(10, 10), GlyphContent::Color, 4096).unwrap();
    assert_eq!(text.get(1), Some(mask));
    assert_eq!(text.get(2), Some(color));
    assert_eq!(text.get(3), None);
}

#[test]
fn text_atlas_reports_full_atlas() {
    let mut text = TextAtlas::new();
    assert_eq!(
        text.insert_image(1, placement(300, 10), GlyphContent::Color, 300),
        Err(GlyphError::AtlasFull)
    );
    assert_eq!(text.get(1), None);
}

#[test]
fn get_or_insert_rasterizes_once() {
    let mut text = TextAtlas::new();
    let first = text
        .get_or_insert(4, 4096, || Ok((placement(8, 8), GlyphContent::Mask)))
        .unwrap();
    assert!(holds(first.atlas_rect, 8, 8));
    let second = text.get_or_insert(4, 4096, || Err(GlyphError::AtlasFull)).unwrap();
    assert_eq!(first, second);
}

#[test]
fn get_or_insert_passes_rasterizer_error_on() {
    let mut text = TextAtlas::new();
    assert_eq!(text.get_or_insert(4, 4096, || Err(GlyphError::AtlasFull)), Err(GlyphError::AtlasFull));
    assert_eq!(text.get(4), None);
}

#[test]
fn text_atlas_trim_allows_eviction() {
    let mut text = TextAtlas::new();
    assert!(text.insert_image(1, placement(128, 128), GlyphContent::Color, 128).is_ok());
    assert_eq!(
        text.insert_image(2, placement(128, 128), GlyphContent::Color, 128),
        Err(GlyphError::AtlasFull)
    );
    text.trim();
    assert!(text.insert_image(2, placement(128, 128), GlyphContent::Color, 128).is_ok());
    assert_eq!(text.get(1), None);
}

#[test]
fn glyph_key_packs_parts() {
    let key = glyph_key(1, 2, 3, 1, 2, true);
    assert_eq!(key, (1u128 << 53) | (2u128 << 37) | (3u128 << 5) | (1u128 << 3) | (2u128 << 1) | 1);
    assert_ne!(glyph_key(1, 2, 3, 1, 2, false), key);
    assert_eq!(glyph_key(u64::MAX, u16::MAX, u32::MAX, 3, 3, true) >> 53, u64::MAX as u128);
}

#[test]
fn text_atlas_reports_cached_keys() {
    let mut text = TextAtlas::new();
    assert!(!text.is_cached(1));
    text.insert_image(1, placement(0, 0), GlyphContent::Mask, 4096).unwrap();
    text.insert_image(2, placement(3, 3), GlyphContent::Color, 4096).unwrap();
    text.insert_image(3, placement(3, 3), GlyphContent::Mask, 4096).unwrap();
    assert!(text.is_cached(1));
    assert!(text.is_cached(2));
    assert!(text.is_cached(3));
    assert!(!text.is_cached(4));
}

#[test]
fn grow_reaches_exactly_the_largest_side() {
    let mut atlas = Atlas::new();
    let (grew, info) = atlas.allocate(3, placement(200, 150), GlyphContent::Color, 256).unwrap();
    assert!(grew);
    assert_eq!(atlas.size(), 256);
    assert!(info.atlas_rect.max_x <= 256 && info.atlas_rect.max_y <= 256);
}

#[test]
fn too_large_glyph_is_refused_without_eviction_help() {
    let mut atlas = Atlas::new();
    assert!(atlas.allocate_no_grow(1, placement(10, 10), GlyphContent::Mask).is_some());
    atlas.trim();
    assert_eq!(atlas.allocate_no_grow(2, placement(256, 4), GlyphContent::Mask), None);
}

#[test]
fn fresh_atlas_places_glyph_as_large_as_its_side() {
    let mut atlas = Atlas::new();
    let info = atlas.allocate_no_grow(9, placement(128, 128), GlyphContent::Color).unwrap();
    assert!(holds(info.atlas_rect, 128, 128));
    assert!(info.atlas_rect.max_x <= 128 && info.atlas_rect.max_y <= 128);
}

#[test]
fn fresh_atlas_grows_to_the_side_that_fits() {
    let mut atlas = Atlas::new();
    let (grew, info) = atlas.allocate(4, placement(1000, 600), GlyphContent::Mask, 1024).unwrap();
    assert!(grew);
    assert_eq!(atlas.size(), 1024);
    assert!(holds(info.atlas_rect, 1000, 600));
}

#[test]
fn fresh_atlas_refuses_glyph_beyond_its_largest_side() {
    let mut atlas = Atlas::new();
    assert_eq!(
        atlas.allocate(4, placement(1025, 10), GlyphContent::Mask, 1024),
        Err(GlyphError::AtlasFull)
    );
    assert_eq!(atlas.size(), 1024);
}

#[test]
fn atlas_grows_up_to_the_largest_side_of_the_packer() {
    let mut atlas = Atlas::new();
    let (grew, info) = atlas.allocate(5, placement(20000, 30000), GlyphContent::Color, 32768).unwrap();
    assert!(grew);
    assert_eq!(atlas.size(), 32768);
    assert!(holds(info.atlas_rect, 20000, 30000));
}
