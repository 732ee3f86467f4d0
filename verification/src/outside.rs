use vstd::prelude::*;
use cosmic_text::{CacheKey, FontSystem, SwashCache, SwashContent};
use std::collections::HashMap;
use crate::atlas::{image_view, AtlasEntry, GlyphImage};

verus! {

/// The key under which cosmic-text caches a rasterized glyph.
#[verifier::external_type_specification]
#[verifier::external_body]
pub struct ExCacheKey(cosmic_text::CacheKey);

/// cosmic-text's font database and shaping state.
#[verifier::external_type_specification]
#[verifier::external_body]
pub struct ExFontSystem(cosmic_text::FontSystem);

/// cosmic-text's cache of rasterized glyph images.
#[verifier::external_type_specification]
#[verifier::external_body]
pub struct ExSwashCache(cosmic_text::SwashCache);

/// What a `SwashCache` holds: for each cache key rasterized so far, the
/// image (content is an alpha mask, bearing, size, pixels), or `None` when
/// no image could be made.
pub uninterp spec fn swash_images(cache: SwashCache) -> Map<CacheKey, Option<(bool, [i32; 2], [u32; 2], Seq<u8>)>>;

/// Rasterizes a glyph through cosmic-text's `SwashCache::get_image` and copies
/// the image into a [`GlyphImage`]: content kind, bearing, size and pixels.
/// `get_image` looks the key up in the cache's image map and, when it is
/// missing, rasterizes the glyph and stores the result there; it returns what
/// the map then holds for the key. What is rasterized depends on the fonts
/// loaded into `font_system` and is not stated.
#[verifier::external_body]
pub(crate) fn glyph_image(swash_cache: &mut SwashCache, font_system: &mut FontSystem, cache_key: CacheKey) -> (image: Option<GlyphImage>)
    ensures
        swash_images(*final(swash_cache)).contains_key(cache_key),
        swash_images(*old(swash_cache)).contains_key(cache_key)
            ==> swash_images(*final(swash_cache)) == swash_images(*old(swash_cache)),
        !swash_images(*old(swash_cache)).contains_key(cache_key)
            ==> swash_images(*final(swash_cache))
                == swash_images(*old(swash_cache)).insert(cache_key, swash_images(*final(swash_cache))[cache_key]),
        match image {
            Some(i) => swash_images(*final(swash_cache))[cache_key] == Some(image_view(i)),
            None => swash_images(*final(swash_cache))[cache_key] is None,
        },
{
    let image = swash_cache.get_image(font_system, cache_key).as_ref()?;
    Some(GlyphImage {
        mask: match image.content {
            SwashContent::Mask => true,
            SwashContent::SubpixelMask => false,
            SwashContent::Color => false,
        },
        placement: [image.placement.left, image.placement.top],
        size: [image.placement.width, image.placement.height],
        data: image.data.clone(),
    })
}

/// `HashMap::get` on the atlas entries, with the entry copied out. `CacheKey`
/// derives `Eq` and `Hash` field by field; its font id's `Hash` is written by
/// hand (it hashes the id's integer form) and agrees with its derived `Eq`.
/// So the map finds a key exactly when its view holds it, and returns the
/// entry stored under it.
#[verifier::external_body]
pub(crate) fn lookup_entry(entries: &HashMap<CacheKey, AtlasEntry>, key: &CacheKey) -> (entry: Option<AtlasEntry>)
    ensures
        entry == (if entries@.contains_key(*key) { Some(entries@[*key]) } else { None::<AtlasEntry> }),
{
    entries.get(key).copied()
}

/// `HashMap::insert` on the atlas entries: afterwards the map holds `entry`
/// under `key` and is otherwise unchanged (`CacheKey`'s `Eq` is derived
/// field by field, and its `Hash`, derived apart from the font id's
/// hand-written one, agrees with it).
#[verifier::external_body]
pub(crate) fn store_entry(entries: &mut HashMap<CacheKey, AtlasEntry>, key: CacheKey, entry: AtlasEntry)
    ensures
        final(entries)@ == old(entries)@.insert(key, entry),
{
    entries.insert(key, entry);
}

} // verus!
