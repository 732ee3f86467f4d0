use vstd::prelude::*;
use cosmic_text::{CacheKey, FontSystem, SwashCache};
use std::collections::HashMap;
use crate::outside::{glyph_image, lookup_entry, store_entry, swash_images};
use crate::raster::{
    blit, blitted, copied_pixel, downsample, downsample_spec, flipped, in_rect, lemma_downsample_flipped,
    lemma_downsample_mirrored, lemma_padded_mask_flipped,
    lemma_downsample_monotone, lemma_index_bound, lemma_padded_mask_mirrored, lemma_padded_mask_monotone,
    lemma_row_major, mirrored, padded_mask, padded_mask_spec, pixel_at, pointwise_le,
};
use crate::sdf::{lemma_sdf_flipped, lemma_sdf_mirrored, lemma_sdf_monotone, levels_ordered, sdf, sdf_spec, SdfLevels, SDF_RADIUS};

verus! {

/// Side length of the square glyph atlas.
pub const ATLAS_SIZE: usize = 1024;

/// Supersampling factor of glyph masks when the atlas stores distance fields.
pub const SDF_SCALE: usize = 3;

/// Empty pixels kept around every glyph in the atlas.
pub const GLYPH_PADDING: usize = 8;

/// Where a glyph sits in the atlas.
///
/// `origin` and `size` are in atlas pixels; `placement` is the glyph image's
/// left and top bearing in source pixels and `scale` the factor by which the
/// source was reduced to atlas pixels.
#[derive(Clone, Copy, Debug)]
pub struct AtlasEntry {
    pub origin: [usize; 2],
    pub size: [usize; 2],
    pub placement: [i32; 2],
    pub scale: usize,
}

/// The rectangle of `entry` lies inside a `width` x `height` atlas.
pub open spec fn entry_within(entry: AtlasEntry, width: int, height: int) -> bool {
    &&& entry.origin[0] + entry.size[0] <= width
    &&& entry.origin[1] + entry.size[1] <= height
}

/// The rectangles of two entries share no pixel.
pub open spec fn entries_disjoint(a: AtlasEntry, b: AtlasEntry) -> bool {
    ||| a.origin[0] + a.size[0] <= b.origin[0]
    ||| b.origin[0] + b.size[0] <= a.origin[0]
    ||| a.origin[1] + a.size[1] <= b.origin[1]
    ||| b.origin[1] + b.size[1] <= a.origin[1]
}

/// An entry lies behind the shelf cursor: in a finished row above it, or in
/// the current row to the left of it.
pub open spec fn behind_cursor(entry: AtlasEntry, x: int, y: int, row_height: int) -> bool {
    ||| entry.origin[1] + entry.size[1] <= y
    ||| (entry.origin[1] == y && entry.origin[0] + entry.size[0] <= x && entry.size[1] <= row_height)
}

/// A reservation request that can never fit: empty, or larger than the atlas.
pub open spec fn size_rejected(w: int, h: int, width: int, height: int) -> bool {
    w == 0 || h == 0 || w > width || h > height
}

/// The row a request of width `w` goes to: the current row when it still has
/// room, else the next one. Returns the new cursor `(x, y, row_height)`.
pub open spec fn shelf_row(x: int, y: int, row_height: int, w: int, width: int) -> (int, int, int) {
    if x + w > width {
        (0, y + row_height, 0)
    } else {
        (x, y, row_height)
    }
}

/// A rasterized glyph as the font rasterizer hands it over.
///
/// `mask` tells whether the image is an 8-bit alpha mask (other kinds, such as
/// color bitmaps, are not placed in the atlas); `placement` is its left and
/// top bearing, `size` its width and height, and `data` its pixels, row-major.
#[derive(Clone, Debug)]
pub struct GlyphImage {
    pub mask: bool,
    pub placement: [i32; 2],
    pub size: [u32; 2],
    pub data: Vec<u8>,
}

/// A glyph image as plain values: whether it is an alpha mask, its bearing,
/// its size and its pixels.
pub open spec fn image_view(image: GlyphImage) -> (bool, [i32; 2], [u32; 2], Seq<u8>) {
    (image.mask, image.placement, image.size, image.data@)
}

/// `a / b`, rounded up.
pub open spec fn ceil_div(a: int, b: int) -> int {
    a / b + if a % b != 0 { 1int } else { 0int }
}

/// How many source pixels make one atlas pixel.
pub open spec fn glyph_scale(use_sdf: bool) -> int {
    if use_sdf { SDF_SCALE as int } else { 1 }
}

/// The atlas rectangle a glyph of `source` width and height needs: the
/// reduced image plus [`GLYPH_PADDING`] on every side.
pub open spec fn glyph_size(source: [u32; 2], use_sdf: bool) -> (int, int) {
    let s = glyph_scale(use_sdf);
    (ceil_div(source[0] as int, s) + 2 * GLYPH_PADDING, ceil_div(source[1] as int, s) + 2 * GLYPH_PADDING)
}

/// The atlas pixels of a glyph: its mask, padded, and, in a distance field
/// atlas, turned into a distance field at [`SDF_SCALE`] times the atlas
/// resolution and reduced by averaging.
pub open spec fn glyph_pixels(data: Seq<u8>, source: [u32; 2], size: [usize; 2], use_sdf: bool, levels: SdfLevels) -> Seq<u8> {
    let s = glyph_scale(use_sdf);
    let mask = padded_mask_spec(data, [source[0] as usize, source[1] as usize], size, s, GLYPH_PADDING as int);
    if use_sdf {
        downsample_spec(sdf_spec(mask, size[0] * s, size[1] * s, levels), size, s)
    } else {
        mask
    }
}

/// The pixels of `entry`'s rectangle in the row-major image `pixels` (rows
/// `width` long) are those of `bitmap`.
pub open spec fn holds_glyph(pixels: Seq<u8>, width: int, entry: AtlasEntry, bitmap: Seq<u8>) -> bool {
    forall|i: int| 0 <= i < pixels.len()
        && in_rect(i, width, entry.origin[0] as int, entry.origin[1] as int, entry.size[0] as int, entry.size[1] as int)
        ==> #[trigger] pixels[i] == copied_pixel(bitmap, width, entry.origin[0] as int, entry.origin[1] as int, entry.size[0] as int, i)
}

/// No pixel lies in two disjoint rectangles.
pub proof fn lemma_disjoint_rects(i: int, width: int, a: AtlasEntry, b: AtlasEntry)
    requires
        entries_disjoint(a, b),
        in_rect(i, width, a.origin[0] as int, a.origin[1] as int, a.size[0] as int, a.size[1] as int),
    ensures
        !in_rect(i, width, b.origin[0] as int, b.origin[1] as int, b.size[0] as int, b.size[1] as int),
{
}

/// `width` and `height` are small enough that every buffer the atlas builds,
/// supersampled glyph masks included, has a length that fits in `usize`.
pub open spec fn atlas_fits(width: int, height: int) -> bool {
    (width + 1) * (height + 1) * (SDF_SCALE * SDF_SCALE) <= usize::MAX
}

/// How far the shelf cursor has advanced through the atlas, row-major.
pub open spec fn shelf_progress(x: int, y: int, width: int) -> int {
    y * (width + 1) + x
}

/// A CPU-side glyph atlas: a `width` x `height` alpha (or distance field)
/// image into which glyph masks are packed row by row on shelves.
#[derive(Clone)]
pub struct GlyphAtlas {
    pixels: Vec<u8>,
    width: usize,
    height: usize,
    entries: HashMap<CacheKey, AtlasEntry>,
    cursor: [usize; 2],
    row_height: usize,
    version: u64,
    use_sdf: bool,
    sdf_levels: SdfLevels,
    glyphs: Ghost<Map<CacheKey, Seq<u8>>>,
}

impl GlyphAtlas {
    /// The glyphs placed so far, by cache key.
    pub closed spec fn entries(&self) -> Map<CacheKey, AtlasEntry> {
        self.entries@
    }

    /// The atlas image, row-major, `width` bytes per row.
    pub closed spec fn spec_pixels(&self) -> Seq<u8> {
        self.pixels@
    }

    pub closed spec fn spec_width(&self) -> int {
        self.width as int
    }

    pub closed spec fn spec_height(&self) -> int {
        self.height as int
    }

    pub closed spec fn spec_version(&self) -> int {
        self.version as int
    }

    pub closed spec fn spec_uses_sdf(&self) -> bool {
        self.use_sdf
    }

    /// The levels the atlas builds distance fields from.
    pub closed spec fn spec_sdf_levels(&self) -> SdfLevels {
        self.sdf_levels
    }

    /// The pixels each placed glyph was given, by cache key.
    pub closed spec fn glyphs(&self) -> Map<CacheKey, Seq<u8>> {
        self.glyphs@
    }

    /// The shelf cursor: next free column, top of the current row, and the
    /// height of the current row.
    pub closed spec fn shelf(&self) -> (int, int, int) {
        (self.cursor[0] as int, self.cursor[1] as int, self.row_height as int)
    }

    /// The cursor and the placed glyphs are consistent: every glyph lies
    /// inside the atlas and behind the cursor, and no two glyphs overlap.
    pub closed spec fn wf(&self) -> bool {
        let (x, y, rh) = self.shelf();
        &&& self.pixels@.len() == self.width * self.height
        &&& atlas_fits(self.width as int, self.height as int)
        &&& levels_ordered(self.sdf_levels)
        &&& x <= self.width
        &&& y + rh <= self.height
        &&& (x == 0 || rh > 0)
        &&& 1 <= self.version <= 1 + shelf_progress(x, y, self.width as int)
        &&& forall|k: CacheKey| #[trigger] self.entries@.contains_key(k) ==> {
            let e = self.entries@[k];
            &&& e.size[0] >= 1
            &&& e.size[1] >= 1
            &&& entry_within(e, self.width as int, self.height as int)
            &&& behind_cursor(e, x, y, rh)
        }
        &&& forall|k1: CacheKey, k2: CacheKey|
            #![trigger self.entries@[k1], self.entries@[k2]]
            self.entries@.contains_key(k1) && self.entries@.contains_key(k2) && k1 != k2
                ==> entries_disjoint(self.entries@[k1], self.entries@[k2])
        &&& self.glyphs@.dom() == self.entries@.dom()
        &&& forall|k: CacheKey| #[trigger] self.glyphs@.contains_key(k)
            ==> holds_glyph(self.pixels@, self.width as int, self.entries@[k], self.glyphs@[k])
    }

    /// A fresh atlas: all pixels zero, no glyphs, version 1.
    pub fn new(width: usize, height: usize, use_sdf: bool, sdf_levels: SdfLevels) -> (atlas: Self)
        requires
            atlas_fits(width as int, height as int),
            levels_ordered(sdf_levels),
        ensures
            atlas.wf(),
            atlas.spec_width() == width,
            atlas.spec_height() == height,
            atlas.spec_uses_sdf() == use_sdf,
            atlas.spec_sdf_levels() == sdf_levels,
            atlas.glyphs() == Map::<CacheKey, Seq<u8>>::empty(),
            atlas.spec_version() == 1,
            atlas.entries() == Map::<CacheKey, AtlasEntry>::empty(),
            atlas.spec_pixels() == Seq::new((width * height) as nat, |i: int| 0u8),
            atlas.shelf() == (0int, 0int, 0int),
    {
        proof {
            lemma_fits_area(width as int, height as int);
        }
        let pixels = vec![0u8; width * height];
        let atlas = Self {
            pixels,
            width,
            height,
            entries: HashMap::new(),
            cursor: [0, 0],
            row_height: 0,
            version: 1,
            use_sdf,
            sdf_levels,
            glyphs: Ghost(Map::empty()),
        };
        assert(atlas.pixels@ == Seq::new((width * height) as nat, |i: int| 0u8));
        atlas
    }

    /// Reserves a `size[0]` x `size[1]` rectangle on the shelves and returns
    /// its top-left corner. A request that does not fit in the current row
    /// starts a new row, and the cursor moves there even when the request
    /// then does not fit in the remaining height.
    fn reserve(&mut self, size: [usize; 2]) -> (origin: Option<[usize; 2]>)
        requires
            old(self).wf(),
        ensures
            final(self).wf(),
            final(self).pixels == old(self).pixels,
            final(self).width == old(self).width,
            final(self).height == old(self).height,
            final(self).entries == old(self).entries,
            final(self).version == old(self).version,
            final(self).use_sdf == old(self).use_sdf,
            final(self).sdf_levels == old(self).sdf_levels,
            final(self).glyphs == old(self).glyphs,
            ({
                let (x, y, rh) = old(self).shelf();
                let (w, h) = (size[0] as int, size[1] as int);
                let (width, height) = (old(self).width as int, old(self).height as int);
                let (nx, ny, nrh) = shelf_row(x, y, rh, w, width);
                if size_rejected(w, h, width, height) {
                    origin is None && final(self).shelf() == old(self).shelf()
                } else if ny + h > height {
                    origin is None && final(self).shelf() == (nx, ny, nrh)
                } else {
                    &&& origin == Some([nx as usize, ny as usize])
                    &&& final(self).shelf() == (nx + w, ny, if nrh < h { h } else { nrh })
                    &&& shelf_progress(nx + w, ny, width) > shelf_progress(x, y, width)
                }
            }),
            origin matches Some(o) ==> {
                let e = AtlasEntry { origin: o, size: size, placement: [0i32, 0i32], scale: 0 };
                &&& entry_within(e, old(self).width as int, old(self).height as int)
                &&& forall|k: CacheKey| #[trigger] old(self).entries@.contains_key(k)
                    ==> entries_disjoint(e, old(self).entries@[k])
            },
    {
        if size[0] == 0 || size[1] == 0 || size[0] > self.width || size[1] > self.height {
            return None;
        }
        proof {
            lemma_fits_area(self.width as int, self.height as int);
        }
        let ghost (x0, y0, rh0) = self.shelf();
        if self.cursor[0] + size[0] > self.width {
            self.cursor = [0, self.cursor[1] + self.row_height];
            self.row_height = 0;
            proof {
                lemma_row_advance(x0, y0, rh0, self.width as int);
            }
        }
        if self.cursor[1] + size[1] > self.height {
            return None;
        }

        let origin = self.cursor;
        self.cursor = [self.cursor[0] + size[0], self.cursor[1]];
        if size[1] > self.row_height {
            self.row_height = size[1];
        }
        Some(origin)
    }

    /// Places a rasterized glyph in the atlas under `key` and returns where it
    /// went (see [`placed`]). Only alpha masks are placed. The glyph is padded,
    /// turned into a distance field when the atlas stores them, reserved a
    /// rectangle on the shelves and copied there; the version then goes up by
    /// one. When the glyph does not fit, or its data is shorter than its size
    /// says, nothing is placed.
    pub fn insert_image(&mut self, key: CacheKey, image: &GlyphImage) -> (entry: Option<AtlasEntry>)
        requires
            old(self).wf(),
        ensures
            final(self).wf(),
            placed(old(self), final(self), key, *image, entry),
    {
        proof {
            lemma_fits_area(self.width as int, self.height as int);
        }
        if !image.mask {
            return None;
        }
        let data_len = image.data.len();
        let covered = match (image.size[0] as usize).checked_mul(image.size[1] as usize) {
            Some(area) => area <= data_len,
            None => false,
        };
        if !covered {
            return None;
        }
        let source_size = [image.size[0] as usize, image.size[1] as usize];
        let scale: usize = if self.use_sdf { SDF_SCALE } else { 1 };
        proof {
            lemma_ceil_div(source_size[0] as int, scale as int);
            lemma_ceil_div(source_size[1] as int, scale as int);
        }
        let columns = source_size[0] / scale + if source_size[0] % scale != 0 { 1usize } else { 0usize };
        let rows = source_size[1] / scale + if source_size[1] % scale != 0 { 1usize } else { 0usize };
        if columns > self.width || rows > self.height {
            return None;
        }
        let size = [columns + 2 * GLYPH_PADDING, rows + 2 * GLYPH_PADDING];
        let ghost old_self = *self;
        let origin = match self.reserve(size) {
            Some(origin) => origin,
            None => return None,
        };
        let ghost s = scale as int;
        proof {
            lemma_ceil_div(source_size[0] as int, s);
            lemma_ceil_div(source_size[1] as int, s);
            lemma_glyph_buffers(size[0] as int, size[1] as int, self.width as int, self.height as int, s);
            assert(GLYPH_PADDING * scale + source_size[0] <= size[0] * scale
                && GLYPH_PADDING * scale + source_size[1] <= size[1] * scale) by (nonlinear_arith)
                requires
                    columns * scale >= source_size[0],
                    rows * scale >= source_size[1],
                    size[0] == columns + 2 * GLYPH_PADDING,
                    size[1] == rows + 2 * GLYPH_PADDING,
                    scale >= 1;
        }
        let mask = padded_mask(image.data.as_slice(), source_size, size, scale, GLYPH_PADDING);
        let pixels = if self.use_sdf {
            let field = sdf(mask.as_slice(), [size[0] * scale, size[1] * scale], &self.sdf_levels);
            downsample(field.as_slice(), size, scale)
        } else {
            assert(size[0] * 1 == size[0] && size[1] * 1 == size[1]);
            mask
        };
        let ghost bitmap = glyph_pixels(image.data@, image.size, size, self.use_sdf, self.sdf_levels);
        proof {
            lemma_mul_le(origin[1] + size[1], self.height as int, self.width as int);
        }
        let ghost before = self.pixels@;
        blit(&mut self.pixels, self.width, origin, pixels.as_slice(), size);
        let entry = AtlasEntry { origin, size, placement: image.placement, scale };
        store_entry(&mut self.entries, key, entry);
        proof {
            self.glyphs@ = self.glyphs@.insert(key, bitmap);
            let (x, y, rh) = self.shelf();
            lemma_progress_bound(x, y, self.width as int, self.height as int);
            assert(usize::MAX <= u64::MAX);
        }
        self.version = self.version + 1;
        proof {
            let width = self.width as int;
            assert forall|k: CacheKey| #[trigger] self.glyphs@.contains_key(k) implies
                holds_glyph(self.pixels@, width, self.entries@[k], self.glyphs@[k]) by {
                if k == key {
                    assert forall|i: int| 0 <= i < self.pixels@.len()
                        && in_rect(i, width, origin[0] as int, origin[1] as int, size[0] as int, size[1] as int)
                        implies #[trigger] self.pixels@[i] == copied_pixel(bitmap, width, origin[0] as int, origin[1] as int, size[0] as int, i) by {
                    }
                } else {
                    let e = old_self.entries@[k];
                    assert(holds_glyph(before, width, e, old_self.glyphs@[k]));
                    assert forall|i: int| 0 <= i < self.pixels@.len()
                        && in_rect(i, width, e.origin[0] as int, e.origin[1] as int, e.size[0] as int, e.size[1] as int)
                        implies #[trigger] self.pixels@[i] == copied_pixel(old_self.glyphs@[k], width, e.origin[0] as int, e.origin[1] as int, e.size[0] as int, i) by {
                        lemma_disjoint_rects(i, width, e, entry);
                        assert(before[i] == copied_pixel(old_self.glyphs@[k], width, e.origin[0] as int, e.origin[1] as int, e.size[0] as int, i));
                    }
                }
            }
            assert(self.glyphs@.dom() =~= self.entries@.dom());
            assert forall|k1: CacheKey, k2: CacheKey|
                #![trigger self.entries@[k1], self.entries@[k2]]
                self.entries@.contains_key(k1) && self.entries@.contains_key(k2) && k1 != k2
                    implies entries_disjoint(self.entries@[k1], self.entries@[k2]) by {
                if k1 == key {
                    assert(entries_disjoint(entry, old_self.entries@[k2]));
                } else if k2 == key {
                    assert(entries_disjoint(entry, old_self.entries@[k1]));
                } else {
                    assert(entries_disjoint(old_self.entries@[k1], old_self.entries@[k2]));
                }
            }
        }
        Some(entry)
    }

    /// The atlas entry for `cache_key`: the glyph placed earlier under that
    /// key, if any, unchanged (the rasterizer is not asked); else the glyph
    /// image that cosmic-text's cache holds for the key (rasterized now if it
    /// is not there yet), placed as [`GlyphAtlas::insert_image`] does, or
    /// nothing when the cache holds no image for the key. Glyphs already in
    /// the atlas keep their entries either way.
    pub fn get_or_insert(
        &mut self,
        font_system: &mut FontSystem,
        swash_cache: &mut SwashCache,
        cache_key: CacheKey,
    ) -> (entry: Option<AtlasEntry>)
        requires
            old(self).wf(),
        ensures
            final(self).wf(),
            same_config(old(self), final(self)),
            old(self).entries().submap_of(final(self).entries()),
            old(self).entries().contains_key(cache_key) ==> {
                &&& entry == Some(old(self).entries()[cache_key])
                &&& same_contents(old(self), final(self))
                &&& final(self).shelf() == old(self).shelf()
                &&& swash_images(*final(swash_cache)) == swash_images(*old(swash_cache))
            },
            !old(self).entries().contains_key(cache_key) ==> {
                &&& swash_images(*final(swash_cache)).contains_key(cache_key)
                &&& swash_images(*old(swash_cache)).contains_key(cache_key)
                    ==> swash_images(*final(swash_cache)) == swash_images(*old(swash_cache))
                &&& !swash_images(*old(swash_cache)).contains_key(cache_key)
                    ==> swash_images(*final(swash_cache))
                        == swash_images(*old(swash_cache)).insert(cache_key, swash_images(*final(swash_cache))[cache_key])
                &&& match swash_images(*final(swash_cache))[cache_key] {
                    None => entry is None && same_contents(old(self), final(self)) && final(self).shelf() == old(self).shelf(),
                    Some(view) => exists|image: GlyphImage|
                        image_view(image) == view && #[trigger] placed(old(self), final(self), cache_key, image, entry),
                }
            },
    {
        if let Some(entry) = lookup_entry(&self.entries, &cache_key) {
            return Some(entry);
        }
        let image = match glyph_image(swash_cache, font_system, cache_key) {
            Some(image) => image,
            None => return None,
        };
        let ghost old_self = *self;
        let entry = self.insert_image(cache_key, &image);
        assert(placed(&old_self, self, cache_key, image, entry));
        entry
    }

    /// The atlas image, row-major, `width` bytes per row.
    pub fn pixels(&self) -> (pixels: &[u8])
        ensures
            pixels@ == self.spec_pixels(),
    {
        self.pixels.as_slice()
    }

    /// Width and height of the atlas.
    pub fn size(&self) -> (size: [usize; 2])
        ensures
            size[0] == self.spec_width(),
            size[1] == self.spec_height(),
    {
        [self.width, self.height]
    }

    /// Goes up by one each time a glyph is placed.
    pub fn version(&self) -> (version: u64)
        ensures
            version == self.spec_version(),
    {
        self.version
    }

    /// Whether glyphs are stored as distance fields rather than alpha masks.
    pub fn uses_sdf(&self) -> (uses_sdf: bool)
        ensures
            uses_sdf == self.spec_uses_sdf(),
    {
        self.use_sdf
    }

    /// What a well-formed atlas holds: the shelf cursor and its current row
    /// lie inside the atlas, the version is at least 1, its distance field
    /// levels are ordered (see [`levels_ordered`]), every placed glyph
    /// lies inside the atlas and behind the cursor, no two placed glyphs
    /// overlap, and the pixels of each glyph's rectangle are the pixels it was
    /// given, however many glyphs were placed after it.
    pub proof fn lemma_placed_glyphs(&self)
        requires
            self.wf(),
        ensures
            self.spec_pixels().len() == self.spec_width() * self.spec_height(),
            self.shelf().0 <= self.spec_width(),
            self.shelf().1 + self.shelf().2 <= self.spec_height(),
            0 <= self.shelf().0 && 0 <= self.shelf().1 && 0 <= self.shelf().2,
            self.spec_version() >= 1,
            levels_ordered(self.spec_sdf_levels()),
            forall|k: CacheKey| #[trigger] self.entries().contains_key(k)
                ==> behind_cursor(self.entries()[k], self.shelf().0, self.shelf().1, self.shelf().2),
            self.glyphs().dom() == self.entries().dom(),
            forall|k: CacheKey| #[trigger] self.entries().contains_key(k) ==> {
                &&& entry_within(self.entries()[k], self.spec_width(), self.spec_height())
                &&& holds_glyph(self.spec_pixels(), self.spec_width(), self.entries()[k], self.glyphs()[k])
            },
            forall|k1: CacheKey, k2: CacheKey|
                #![trigger self.entries()[k1], self.entries()[k2]]
                self.entries().contains_key(k1) && self.entries().contains_key(k2) && k1 != k2
                    ==> entries_disjoint(self.entries()[k1], self.entries()[k2]),
    {
        assert forall|k: CacheKey| #[trigger] self.entries().contains_key(k) implies
            holds_glyph(self.spec_pixels(), self.spec_width(), self.entries()[k], self.glyphs()[k]) by {
            assert(self.glyphs@.contains_key(k));
        }
    }
}

/// The atlas image, glyph table and version are the same in both atlases.
pub open spec fn same_contents(a: &GlyphAtlas, b: &GlyphAtlas) -> bool {
    &&& a.spec_pixels() == b.spec_pixels()
    &&& a.entries() == b.entries()
    &&& a.glyphs() == b.glyphs()
    &&& a.spec_version() == b.spec_version()
}

/// Both atlases have the same dimensions and rendering mode.
pub open spec fn same_config(a: &GlyphAtlas, b: &GlyphAtlas) -> bool {
    &&& a.spec_width() == b.spec_width()
    &&& a.spec_height() == b.spec_height()
    &&& a.spec_uses_sdf() == b.spec_uses_sdf()
    &&& a.spec_sdf_levels() == b.spec_sdf_levels()
}

/// What placing `image` under `key` does to the atlas `old` (see
/// [`GlyphAtlas::insert_image`]): `entry` is the result, `new` the atlas after.
pub open spec fn placed(old: &GlyphAtlas, new: &GlyphAtlas, key: CacheKey, image: GlyphImage, entry: Option<AtlasEntry>) -> bool {
    let (width, height) = (old.spec_width(), old.spec_height());
    let (w, h) = glyph_size(image.size, old.spec_uses_sdf());
    let (x, y, rh) = old.shelf();
    let (nx, ny, nrh) = shelf_row(x, y, rh, w, width);
    &&& same_config(old, new)
    &&& if !image.mask || image.data@.len() < image.size[0] * image.size[1] || size_rejected(w, h, width, height) {
        &&& entry is None
        &&& same_contents(old, new)
        &&& new.shelf() == old.shelf()
    } else if ny + h > height {
        &&& entry is None
        &&& same_contents(old, new)
        &&& new.shelf() == (nx, ny, nrh)
    } else {
        let e = AtlasEntry {
            origin: [nx as usize, ny as usize],
            size: [w as usize, h as usize],
            placement: image.placement,
            scale: glyph_scale(old.spec_uses_sdf()) as usize,
        };
        let bitmap = glyph_pixels(image.data@, image.size, e.size, old.spec_uses_sdf(), old.spec_sdf_levels());
        &&& entry == Some(e)
        &&& new.entries() == old.entries().insert(key, e)
        &&& new.glyphs() == old.glyphs().insert(key, bitmap)
        &&& new.spec_version() == old.spec_version() + 1
        &&& new.spec_pixels() == blitted(old.spec_pixels(), width, nx, ny, bitmap, w, h)
        &&& new.shelf() == (nx + w, ny, if nrh < h { h } else { nrh })
    }
}

/// Placing a glyph leaves every other placed glyph where it was, with the
/// pixels it was given.
pub proof fn lemma_placement_keeps_glyphs(old: &GlyphAtlas, new: &GlyphAtlas, key: CacheKey, image: GlyphImage, entry: Option<AtlasEntry>)
    requires
        old.wf(),
        new.wf(),
        placed(old, new, key, image, entry),
    ensures
        forall|k: CacheKey| #[trigger] old.entries().contains_key(k) && k != key ==> {
            &&& new.entries().contains_key(k)
            &&& new.entries()[k] == old.entries()[k]
            &&& new.glyphs()[k] == old.glyphs()[k]
            &&& holds_glyph(new.spec_pixels(), new.spec_width(), old.entries()[k], old.glyphs()[k])
        },
{
    old.lemma_placed_glyphs();
    new.lemma_placed_glyphs();
}

/// More coverage never lowers a glyph's atlas pixels: with ordered levels,
/// two glyph images of the same size, one nowhere less covered than the
/// other, give atlas pixels (padded mask, or distance field) nowhere lower.
pub proof fn lemma_glyph_pixels_monotone(data1: Seq<u8>, data2: Seq<u8>, source: [u32; 2], size: [usize; 2], use_sdf: bool, levels: SdfLevels)
    requires
        levels_ordered(levels),
        source[0] * source[1] <= data1.len(),
        source[0] * source[1] <= data2.len(),
        pointwise_le(data1, data2, source[0] * source[1]),
        size[0] == glyph_size(source, use_sdf).0,
        size[1] == glyph_size(source, use_sdf).1,
    ensures
        glyph_pixels(data1, source, size, use_sdf, levels).len() == size[0] * size[1],
        glyph_pixels(data2, source, size, use_sdf, levels).len() == size[0] * size[1],
        pointwise_le(glyph_pixels(data1, source, size, use_sdf, levels),
            glyph_pixels(data2, source, size, use_sdf, levels), size[0] * size[1]),
{
    let s = glyph_scale(use_sdf);
    let source_size = [source[0] as usize, source[1] as usize];
    lemma_ceil_div(source[0] as int, s);
    lemma_ceil_div(source[1] as int, s);
    let (columns, rows) = (ceil_div(source[0] as int, s), ceil_div(source[1] as int, s));
    assert(GLYPH_PADDING * s + source[0] <= size[0] * s && GLYPH_PADDING * s + source[1] <= size[1] * s) by (nonlinear_arith)
        requires
            columns * s >= source[0],
            rows * s >= source[1],
            size[0] == columns + 2 * GLYPH_PADDING,
            size[1] == rows + 2 * GLYPH_PADDING,
            s >= 1;
    lemma_padded_mask_monotone(data1, data2, source_size, size, s, GLYPH_PADDING as int);
    let m1 = padded_mask_spec(data1, source_size, size, s, GLYPH_PADDING as int);
    let m2 = padded_mask_spec(data2, source_size, size, s, GLYPH_PADDING as int);
    let (mw, mh) = (size[0] * s, size[1] * s);
    if use_sdf {
        assert(0 <= mw && 0 <= mh) by (nonlinear_arith)
            requires mw == size[0] * s, mh == size[1] * s, s >= 1, size[0] >= 0, size[1] >= 0;
        lemma_sdf_monotone(m1, m2, mw, mh, levels);
        let f1 = sdf_spec(m1, mw, mh, levels);
        let f2 = sdf_spec(m2, mw, mh, levels);
        assert(pointwise_le(f1, f2, mw * mh));
        lemma_downsample_monotone(f1, f2, size, s);
    } else {
        assert(mw == size[0] && mh == size[1]);
    }
}

/// A glyph's atlas pixels depend only on its two-dimensional shape: a glyph
/// image that reads the same from right to left gets atlas pixels that do
/// too, in a distance field atlas as in a plain one. The padding around the
/// image is as wide on the right as on the left when its width is a whole
/// number of atlas pixels, which this asks (always so without a distance
/// field); otherwise the right side gets the rounding up.
pub proof fn lemma_glyph_pixels_mirrored(data: Seq<u8>, source: [u32; 2], size: [usize; 2], use_sdf: bool, levels: SdfLevels)
    requires
        mirrored(data, source[0] as int, source[1] as int),
        source[0] as int % glyph_scale(use_sdf) == 0,
        size[0] == glyph_size(source, use_sdf).0,
        size[1] == glyph_size(source, use_sdf).1,
    ensures
        mirrored(glyph_pixels(data, source, size, use_sdf, levels), size[0] as int, size[1] as int),
{
    let s = glyph_scale(use_sdf);
    let source_size = [source[0] as usize, source[1] as usize];
    lemma_ceil_div(source[1] as int, s);
    vstd::arithmetic::div_mod::lemma_fundamental_div_mod(source[0] as int, s);
    let (columns, rows) = (ceil_div(source[0] as int, s), ceil_div(source[1] as int, s));
    assert(size[0] * s == 2 * (GLYPH_PADDING * s) + source[0] && GLYPH_PADDING * s + source[1] <= size[1] * s) by (nonlinear_arith)
        requires
            source[0] as int == s * (source[0] as int / s),
            columns == source[0] as int / s,
            rows * s >= source[1],
            size[0] == columns + 2 * GLYPH_PADDING,
            size[1] == rows + 2 * GLYPH_PADDING,
            s >= 1;
    lemma_padded_mask_mirrored(data, source_size, size, s, GLYPH_PADDING as int);
    let mask = padded_mask_spec(data, source_size, size, s, GLYPH_PADDING as int);
    let (mw, mh) = (size[0] * s, size[1] * s);
    if use_sdf {
        lemma_sdf_mirrored(mask, mw, mh, levels);
        lemma_downsample_mirrored(sdf_spec(mask, mw, mh, levels), size, s);
    } else {
        assert(mw == size[0] && mh == size[1]);
    }
}

/// The same from top to bottom: a glyph image that reads the same from
/// bottom to top, its height a whole number of atlas pixels, gets atlas
/// pixels that read the same from bottom to top.
pub proof fn lemma_glyph_pixels_flipped(data: Seq<u8>, source: [u32; 2], size: [usize; 2], use_sdf: bool, levels: SdfLevels)
    requires
        flipped(data, source[0] as int, source[1] as int),
        source[1] as int % glyph_scale(use_sdf) == 0,
        size[0] == glyph_size(source, use_sdf).0,
        size[1] == glyph_size(source, use_sdf).1,
    ensures
        flipped(glyph_pixels(data, source, size, use_sdf, levels), size[0] as int, size[1] as int),
{
    let s = glyph_scale(use_sdf);
    let source_size = [source[0] as usize, source[1] as usize];
    lemma_ceil_div(source[0] as int, s);
    vstd::arithmetic::div_mod::lemma_fundamental_div_mod(source[1] as int, s);
    let (columns, rows) = (ceil_div(source[0] as int, s), ceil_div(source[1] as int, s));
    assert(size[1] * s == 2 * (GLYPH_PADDING * s) + source[1] && GLYPH_PADDING * s + source[0] <= size[0] * s) by (nonlinear_arith)
        requires
            source[1] as int == s * (source[1] as int / s),
            rows == source[1] as int / s,
            columns * s >= source[0],
            size[0] == columns + 2 * GLYPH_PADDING,
            size[1] == rows + 2 * GLYPH_PADDING,
            s >= 1;
    lemma_padded_mask_flipped(data, source_size, size, s, GLYPH_PADDING as int);
    let mask = padded_mask_spec(data, source_size, size, s, GLYPH_PADDING as int);
    let (mw, mh) = (size[0] * s, size[1] * s);
    if use_sdf {
        lemma_sdf_flipped(mask, mw, mh, levels);
        lemma_downsample_flipped(sdf_spec(mask, mw, mh, levels), size, s);
    } else {
        assert(mw == size[0] && mh == size[1]);
    }
}

/// Placing a glyph image that reads the same from right to left (its width
/// a whole number of atlas pixels) puts a glyph into the atlas image that
/// reads the same from right to left within its rectangle.
pub proof fn lemma_placed_glyph_mirrored(old: &GlyphAtlas, new: &GlyphAtlas, key: CacheKey, image: GlyphImage, entry: Option<AtlasEntry>)
    requires
        old.wf(),
        new.wf(),
        placed(old, new, key, image, entry),
        entry is Some,
        mirrored(image.data@, image.size[0] as int, image.size[1] as int),
        image.size[0] as int % glyph_scale(old.spec_uses_sdf()) == 0,
    ensures
        ({
            let e = entry->0;
            let (ox, oy, w, h) = (e.origin[0] as int, e.origin[1] as int, e.size[0] as int, e.size[1] as int);
            &&& mirrored(new.glyphs()[key], w, h)
            &&& forall|x: int, y: int| 0 <= x < w && 0 <= y < h ==>
                #[trigger] pixel_at(new.spec_pixels(), new.spec_width(), ox + x, oy + y)
                    == pixel_at(new.spec_pixels(), new.spec_width(), ox + w - 1 - x, oy + y)
        }),
{
    let e = entry->0;
    let (ox, oy, w, h) = (e.origin[0] as int, e.origin[1] as int, e.size[0] as int, e.size[1] as int);
    let bitmap = glyph_pixels(image.data@, image.size, e.size, old.spec_uses_sdf(), old.spec_sdf_levels());
    lemma_glyph_pixels_mirrored(image.data@, image.size, e.size, old.spec_uses_sdf(), old.spec_sdf_levels());
    new.lemma_placed_glyphs();
    assert(new.entries().contains_key(key));
    assert(new.glyphs()[key] == bitmap);
    let (width, height) = (new.spec_width(), new.spec_height());
    let pixels = new.spec_pixels();
    assert forall|x: int, y: int| 0 <= x < w && 0 <= y < h implies
        #[trigger] pixel_at(pixels, width, ox + x, oy + y) == pixel_at(pixels, width, ox + w - 1 - x, oy + y) by {
        let i = (oy + y) * width + ox + x;
        let j = (oy + y) * width + (ox + w - 1 - x);
        lemma_row_major(ox + x, oy + y, width);
        lemma_row_major(ox + w - 1 - x, oy + y, width);
        lemma_index_bound(ox + x, oy + y, width, height);
        lemma_index_bound(ox + w - 1 - x, oy + y, width, height);
        assert(height * width == width * height) by (nonlinear_arith);
        assert(in_rect(i, width, ox, oy, w, h));
        assert(in_rect(j, width, ox, oy, w, h));
        assert(pixel_at(bitmap, w, x, y) == pixel_at(bitmap, w, w - 1 - x, y));
    }
}

/// Rounding up a division and scaling back covers the dividend.
proof fn lemma_ceil_div(a: int, s: int)
    requires
        0 <= a,
        1 <= s,
    ensures
        ceil_div(a, s) * s >= a,
        0 <= ceil_div(a, s) <= a,
{
    vstd::arithmetic::div_mod::lemma_fundamental_div_mod(a, s);
    assert(ceil_div(a, s) * s >= a && 0 <= ceil_div(a, s) <= a) by (nonlinear_arith)
        requires
            a == s * (a / s) + a % s,
            0 <= a % s < s,
            ceil_div(a, s) == a / s + if a % s != 0 { 1int } else { 0int },
            0 <= a, 1 <= s;
}

/// The buffers built for a glyph that fits in the atlas have lengths that fit
/// in `usize`.
proof fn lemma_glyph_buffers(w: int, h: int, width: int, height: int, s: int)
    requires
        2 * SDF_RADIUS <= w <= width,
        2 * SDF_RADIUS <= h <= height,
        1 <= s <= SDF_SCALE,
        atlas_fits(width, height),
    ensures
        w * s <= usize::MAX,
        h * s <= usize::MAX,
        w * s + 2 * SDF_RADIUS <= usize::MAX,
        h * s + 2 * SDF_RADIUS <= usize::MAX,
        w * s * (h * s) <= usize::MAX,
        w * h <= w * s * (h * s),
{
    let big = (width + 1) * (height + 1) * (SDF_SCALE * SDF_SCALE);
    assert(w * s * (h * s) <= big) by (nonlinear_arith)
        requires 0 <= w <= width, 0 <= h <= height, 1 <= s <= 3, big == (width + 1) * (height + 1) * 9;
    assert(w * s + 16 <= big && h * s + 16 <= big) by (nonlinear_arith)
        requires 16 <= w <= width, 16 <= h <= height, 1 <= s <= 3, big == (width + 1) * (height + 1) * 9;
    assert(w * h <= w * s * (h * s)) by (nonlinear_arith)
        requires 0 <= w, 0 <= h, 1 <= s;
}

/// The cursor's progress stays below the atlas area.
proof fn lemma_progress_bound(x: int, y: int, width: int, height: int)
    requires
        0 <= x <= width,
        0 <= y <= height,
    ensures
        shelf_progress(x, y, width) < (width + 1) * (height + 1),
{
    assert(y * (width + 1) + x < (width + 1) * (height + 1)) by (nonlinear_arith)
        requires 0 <= x <= width, 0 <= y <= height;
}

proof fn lemma_mul_le(a: int, b: int, c: int)
    requires
        0 <= a <= b,
        0 <= c,
    ensures
        a * c <= b * c,
{
    assert(a * c <= b * c) by (nonlinear_arith)
        requires 0 <= a <= b, 0 <= c;
}

proof fn lemma_fits_area(width: int, height: int)
    requires
        0 <= width,
        0 <= height,
        atlas_fits(width, height),
    ensures
        width * height <= usize::MAX,
        (width + 1) * (height + 1) <= usize::MAX,
        2 * width + 2 <= usize::MAX,
        2 * height + 2 <= usize::MAX,
{
    assert((width + 1) * (height + 1) * (SDF_SCALE * SDF_SCALE) >= 2 * width + 2
        && (width + 1) * (height + 1) * (SDF_SCALE * SDF_SCALE) >= 2 * height + 2) by (nonlinear_arith)
        requires 0 <= width, 0 <= height;
    assert(width * height <= (width + 1) * (height + 1)) by (nonlinear_arith)
        requires 0 <= width, 0 <= height;
    assert((width + 1) * (height + 1) <= (width + 1) * (height + 1) * (SDF_SCALE * SDF_SCALE)) by (nonlinear_arith)
        requires 0 <= width, 0 <= height;
}

/// Starting a new row moves the cursor forward in row-major order.
proof fn lemma_row_advance(x: int, y: int, rh: int, width: int)
    requires
        0 < x <= width,
        rh >= 1,
        0 <= y,
    ensures
        forall|w: int| 1 <= w <= width ==> #[trigger] shelf_progress(w, y + rh, width) > shelf_progress(x, y, width),
        shelf_progress(0, y + rh, width) >= shelf_progress(x, y, width),
{
    assert((y + rh) * (width + 1) >= y * (width + 1) + (width + 1)) by (nonlinear_arith)
        requires rh >= 1, width >= 0;
}

} // verus!
