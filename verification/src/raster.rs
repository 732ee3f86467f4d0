//! Row-major 8-bit images: copying rectangles, padding glyph masks and
//! box-filter downsampling.
use vstd::prelude::*;
use vstd::arithmetic::div_mod::{lemma_fundamental_div_mod, lemma_fundamental_div_mod_converse};

verus! {

/// Column and row `(x, y)` have index `y * width + x` in a row-major image.
pub proof fn lemma_row_major(x: int, y: int, width: int)
    requires
        0 <= x < width,
        0 <= y,
    ensures
        (y * width + x) / width == y,
        (y * width + x) % width == x,
{
    lemma_fundamental_div_mod_converse(y * width + x, width, y, x);
}

/// Every index of a row-major image is `row * width + column`.
pub proof fn lemma_split_index(i: int, width: int)
    requires
        0 <= i,
        0 < width,
    ensures
        i == (i / width) * width + i % width,
        0 <= i % width < width,
        0 <= i / width,
{
    lemma_fundamental_div_mod(i, width);
    assert(0 <= i / width && (i / width) * width == width * (i / width)) by (nonlinear_arith)
        requires 0 <= i, 0 < width;
}

/// A pixel inside a `width` x `height` image has an index below the area.
pub proof fn lemma_index_bound(x: int, y: int, width: int, height: int)
    requires
        0 <= x < width,
        0 <= y < height,
    ensures
        0 <= y * width + x < height * width,
        y * width + x + 1 <= height * width,
{
    assert(0 <= y * width + x < height * width) by (nonlinear_arith)
        requires 0 <= x < width, 0 <= y < height;
}

/// Pixel `i` of a row-major image `width` wide lies in the `w` x `h`
/// rectangle whose top-left corner is `(ox, oy)`.
pub open spec fn in_rect(i: int, width: int, ox: int, oy: int, w: int, h: int) -> bool {
    &&& ox <= i % width < ox + w
    &&& oy <= i / width < oy + h
}

/// The source pixel that a copy of `src` (rows `w` wide) to `(ox, oy)` puts at
/// destination index `i`.
pub open spec fn copied_pixel(src: Seq<u8>, width: int, ox: int, oy: int, w: int, i: int) -> u8 {
    src[(i / width - oy) * w + (i % width - ox)]
}

/// `dst` (rows `width` wide) after the `w` x `h` image `src` is copied into it
/// with its top-left corner at `(ox, oy)`.
pub open spec fn blitted(dst: Seq<u8>, width: int, ox: int, oy: int, src: Seq<u8>, w: int, h: int) -> Seq<u8> {
    Seq::new(dst.len(), |i: int|
        if in_rect(i, width, ox, oy, w, h) { copied_pixel(src, width, ox, oy, w, i) } else { dst[i] })
}

/// Copies the `size[0]` x `size[1]` image `src` into `dst`, whose rows are
/// `dst_width` long, with its top-left corner at `origin`.
pub fn blit(dst: &mut Vec<u8>, dst_width: usize, origin: [usize; 2], src: &[u8], size: [usize; 2])
    requires
        origin[0] + size[0] <= dst_width,
        (origin[1] + size[1]) * dst_width <= old(dst)@.len(),
        size[0] * size[1] <= src@.len(),
    ensures
        final(dst)@ == blitted(old(dst)@, dst_width as int, origin[0] as int, origin[1] as int, src@, size[0] as int, size[1] as int),
{
    let ghost d0 = dst@;
    let ghost (width, ox, oy, w, h) = (dst_width as int, origin[0] as int, origin[1] as int, size[0] as int, size[1] as int);
    let _dst_len = dst.len();
    let _src_len = src.len();
    assert(d0.len() <= usize::MAX && src@.len() <= usize::MAX);
    let mut y: usize = 0;
    while y < size[1]
        invariant
            0 <= y <= h,
            d0.len() <= usize::MAX,
            src@.len() <= usize::MAX,
            width == dst_width, ox == origin[0], oy == origin[1], w == size[0], h == size[1],
            ox + w <= width,
            (oy + h) * width <= d0.len(),
            w * h <= src@.len(),
            dst@.len() == d0.len(),
            forall|i: int| 0 <= i < d0.len() ==> #[trigger] dst@[i] == (
                if in_rect(i, width, ox, oy, w, y as int) { copied_pixel(src@, width, ox, oy, w, i) } else { d0[i] }),
        decreases h - y,
    {
        let mut x: usize = 0;
        while x < size[0]
            invariant
                0 <= y < h,
                0 <= x <= w,
                d0.len() <= usize::MAX,
                src@.len() <= usize::MAX,
                width == dst_width, ox == origin[0], oy == origin[1], w == size[0], h == size[1],
                ox + w <= width,
                (oy + h) * width <= d0.len(),
                w * h <= src@.len(),
                dst@.len() == d0.len(),
                forall|i: int| 0 <= i < d0.len() ==> #[trigger] dst@[i] == (
                    if in_rect(i, width, ox, oy, w, y as int) || in_rect(i, width, ox, oy + y, x as int, 1) {
                        copied_pixel(src@, width, ox, oy, w, i)
                    } else {
                        d0[i]
                    }),
            decreases w - x,
        {
            proof {
                lemma_index_bound(ox + x, oy + y, width, oy + h);
                lemma_index_bound(x as int, y as int, w, h);
                lemma_row_major(ox + x, oy + y, width);
                assert((oy + y) * width <= (oy + y) * width + ox + x);
            }
            let t = (origin[1] + y) * dst_width + origin[0] + x;
            let v = src[y * size[0] + x];
            let ghost before = dst@;
            dst.set(t, v);
            proof {
                assert forall|i: int| 0 <= i < d0.len() implies #[trigger] dst@[i] == (
                    if in_rect(i, width, ox, oy, w, y as int) || in_rect(i, width, ox, oy + y, x + 1, 1) {
                        copied_pixel(src@, width, ox, oy, w, i)
                    } else {
                        d0[i]
                    }) by {
                    lemma_split_index(i, width);
                    if i != t {
                        assert(dst@[i] == before[i]);
                        if in_rect(i, width, ox, oy + y, x + 1, 1) && !in_rect(i, width, ox, oy + y, x as int, 1) {
                            assert(i % width == ox + x);
                            assert(i / width == oy + y);
                            assert(false);
                        }
                    }
                }
            }
            x = x + 1;
        }
        proof {
            assert forall|i: int| 0 <= i < d0.len() implies #[trigger] dst@[i] == (
                if in_rect(i, width, ox, oy, w, y + 1) { copied_pixel(src@, width, ox, oy, w, i) } else { d0[i] }) by {
                if width > 0 {
                    lemma_split_index(i, width);
                }
            }
        }
        y = y + 1;
    }
    assert(dst@ =~= blitted(d0, width, ox, oy, src@, w, h));
}

/// A row-major image of `len` zero bytes.
pub open spec fn zeros(len: int) -> Seq<u8> {
    Seq::new(len as nat, |i: int| 0u8)
}

proof fn lemma_mul_mono(a: int, b: int, c: int)
    requires
        0 <= a <= b,
        0 <= c,
    ensures
        a * c <= b * c,
        c * a <= c * b,
{
    assert(a * c <= b * c && c * a <= c * b) by (nonlinear_arith)
        requires 0 <= a <= b, 0 <= c;
}

/// The `size[0] * scale` x `size[1] * scale` mask that holds the
/// `source_size[0]` x `source_size[1]` glyph image `source` with
/// `padding * scale` empty pixels above and to the left of it; all other
/// pixels are zero.
pub open spec fn padded_mask_spec(source: Seq<u8>, source_size: [usize; 2], size: [usize; 2], scale: int, padding: int) -> Seq<u8> {
    let mask_width = size[0] * scale;
    let mask_height = size[1] * scale;
    blitted(zeros(mask_width * mask_height), mask_width, padding * scale, padding * scale,
        source, source_size[0] as int, source_size[1] as int)
}

/// Places a glyph image in a zeroed, padded mask at `scale` times the
/// atlas resolution (see [`padded_mask_spec`]).
pub fn padded_mask(source: &[u8], source_size: [usize; 2], size: [usize; 2], scale: usize, padding: usize) -> (mask: Vec<u8>)
    requires
        size[0] * scale <= usize::MAX,
        size[1] * scale <= usize::MAX,
        size[0] * scale * (size[1] * scale) <= usize::MAX,
        padding * scale + source_size[0] <= size[0] * scale,
        padding * scale + source_size[1] <= size[1] * scale,
        source_size[0] * source_size[1] <= source@.len(),
    ensures
        mask@ == padded_mask_spec(source@, source_size, size, scale as int, padding as int),
{
    let ghost (mw, mh) = (size[0] * scale, size[1] * scale);
    proof {
        lemma_mul_mono(padding * scale + source_size[1], mh, mw);
    }
    let mask_width = size[0] * scale;
    let mask_height = size[1] * scale;
    let pad = padding * scale;
    let mut mask = vec![0u8; mask_width * mask_height];
    assert(mask@ == zeros(mw * mh));
    blit(&mut mask, mask_width, [pad, pad], source, source_size);
    mask
}

/// Sum of the `n` pixels of row `y` (rows `width` long) starting at column `x`.
pub open spec fn row_sum(source: Seq<u8>, width: int, x: int, y: int, n: int) -> int
    decreases n,
{
    if n <= 0 {
        0
    } else {
        row_sum(source, width, x, y, n - 1) + source[y * width + x + n - 1]
    }
}

/// Sum of the `rows` x `n` block of pixels whose top-left corner is `(x, y)`.
pub open spec fn block_sum(source: Seq<u8>, width: int, x: int, y: int, rows: int, n: int) -> int
    decreases rows,
{
    if rows <= 0 {
        0
    } else {
        block_sum(source, width, x, y, rows - 1, n) + row_sum(source, width, x, y + rows - 1, n)
    }
}

/// Box filter: pixel `(x, y)` of the `size[0]` x `size[1]` result is the
/// mean, rounded down, of the `scale` x `scale` block of `source` (rows
/// `size[0] * scale` long) at `(x * scale, y * scale)`.
pub open spec fn downsample_spec(source: Seq<u8>, size: [usize; 2], scale: int) -> Seq<u8> {
    let w = size[0] as int;
    Seq::new((size[0] * size[1]) as nat, |i: int|
        (block_sum(source, w * scale, (i % w) * scale, (i / w) * scale, scale, scale) / (scale * scale)) as u8)
}

proof fn lemma_row_sum_bound(source: Seq<u8>, width: int, x: int, y: int, n: int)
    requires
        0 <= n,
    ensures
        0 <= row_sum(source, width, x, y, n) <= 255 * n,
    decreases n,
{
    if n > 0 {
        lemma_row_sum_bound(source, width, x, y, n - 1);
    }
}

proof fn lemma_block_sum_bound(source: Seq<u8>, width: int, x: int, y: int, rows: int, n: int)
    requires
        0 <= rows,
        0 <= n,
    ensures
        0 <= block_sum(source, width, x, y, rows, n) <= 255 * n * rows,
    decreases rows,
{
    if rows > 0 {
        lemma_block_sum_bound(source, width, x, y, rows - 1, n);
        lemma_row_sum_bound(source, width, x, y + rows - 1, n);
        assert(255 * n * (rows - 1) + 255 * n == 255 * n * rows) by (nonlinear_arith);
    }
}

/// Reduces a `size[0] * scale` x `size[1] * scale` image to `size[0]` x
/// `size[1]` by averaging each `scale` x `scale` block (see
/// [`downsample_spec`]).
pub fn downsample(source: &[u8], size: [usize; 2], scale: usize) -> (pixels: Vec<u8>)
    requires
        scale >= 1,
        255 * scale * scale <= usize::MAX,
        size[0] * scale <= usize::MAX,
        size[0] * scale * (size[1] * scale) <= source@.len(),
    ensures
        pixels@ == downsample_spec(source@, size, scale as int),
{
    let ghost (w, h, s) = (size[0] as int, size[1] as int, scale as int);
    let _source_len = source.len();
    proof {
        assert(size[0] * size[1] <= size[0] * scale * (size[1] * scale)) by (nonlinear_arith)
            requires scale >= 1;
        assert(s * s >= 1 && s * s <= 255 * s * s) by (nonlinear_arith) requires s >= 1;
    }
    let source_width = size[0] * scale;
    let mut pixels = vec![0u8; size[0] * size[1]];
    let ghost expected = downsample_spec(source@, size, s);
    let mut y: usize = 0;
    while y < size[1]
        invariant
            0 <= y <= h,
            w == size[0], h == size[1], s == scale, s >= 1,
            255 * s * s <= usize::MAX,
            s * s >= 1,
            s * s <= usize::MAX,
            source_width == w * s,
            w * s * (h * s) <= source@.len(),
            source@.len() <= usize::MAX,
            w * h <= usize::MAX,
            expected == downsample_spec(source@, size, s),
            pixels@.len() == w * h,
            forall|i: int| 0 <= i < w * h ==> #[trigger] pixels@[i] == if i < y * w { expected[i] } else { 0u8 },
        decreases h - y,
    {
        let mut x: usize = 0;
        while x < size[0]
            invariant
                0 <= y < h,
                0 <= x <= w,
                w == size[0], h == size[1], s == scale, s >= 1,
                255 * s * s <= usize::MAX,
                s * s >= 1,
                s * s <= usize::MAX,
                source_width == w * s,
                w * s * (h * s) <= source@.len(),
                source@.len() <= usize::MAX,
                w * h <= usize::MAX,
                expected == downsample_spec(source@, size, s),
                pixels@.len() == w * h,
                forall|i: int| 0 <= i < w * h ==> #[trigger] pixels@[i] == if i < y * w + x { expected[i] } else { 0u8 },
            decreases w - x,
        {
            let mut sum: usize = 0;
            let mut dy: usize = 0;
            while dy < scale
                invariant
                    0 <= y < h,
                    0 <= x < w,
                    0 <= dy <= s,
                    w == size[0], h == size[1], s == scale, s >= 1,
                    255 * s * s <= usize::MAX,
                    source_width == w * s,
                    w * s * (h * s) <= source@.len(),
                    source@.len() <= usize::MAX,
                    sum == block_sum(source@, w * s, x * s, y * s, dy as int, s),
                decreases s - dy,
            {
                let mut dx: usize = 0;
                while dx < scale
                    invariant
                        0 <= y < h,
                        0 <= x < w,
                        0 <= dy < s,
                        0 <= dx <= s,
                        w == size[0], h == size[1], s == scale, s >= 1,
                        255 * s * s <= usize::MAX,
                        source_width == w * s,
                        w * s * (h * s) <= source@.len(),
                        source@.len() <= usize::MAX,
                        sum == block_sum(source@, w * s, x * s, y * s, dy as int, s)
                            + row_sum(source@, w * s, x * s, y * s + dy, dx as int),
                    decreases s - dx,
                {
                    proof {
                        assert(x * s + dx < w * s && y * s + dy < h * s && 0 <= x * s && 0 <= y * s) by (nonlinear_arith)
                            requires 0 <= x < w, 0 <= y < h, 0 <= dx < s, 0 <= dy < s;
                        assert(h * s <= w * s * (h * s) && y * s <= h * s) by (nonlinear_arith)
                            requires 0 <= x < w, 0 <= y < h, s >= 1;
                        lemma_index_bound(x * s + dx, y * s + dy, w * s, h * s);
                        assert((h * s) * (w * s) == w * s * (h * s)) by (nonlinear_arith);
                        lemma_block_sum_bound(source@, w * s, x * s, y * s, dy as int, s);
                        lemma_row_sum_bound(source@, w * s, x * s, y * s + dy, dx as int);
                        assert(255 * s * dy + 255 * dx + 255 <= 255 * s * s) by (nonlinear_arith)
                            requires 0 <= dy < s, 0 <= dx < s;
                    }
                    sum = sum + source[(y * scale + dy) * source_width + x * scale + dx] as usize;
                    dx = dx + 1;
                }
                dy = dy + 1;
            }
            proof {
                lemma_block_sum_bound(source@, w * s, x * s, y * s, s, s);
                assert((sum as int) / (s * s) <= 255) by (nonlinear_arith)
                    requires 0 <= sum <= 255 * s * s, s >= 1;
                lemma_index_bound(x as int, y as int, w, h);
                assert(h * w == w * h) by (nonlinear_arith);
                lemma_row_major(x as int, y as int, w);
            }
            let value = (sum / (scale * scale)) as u8;
            let ghost before = pixels@;
            pixels.set(y * size[0] + x, value);
            proof {
                assert forall|i: int| 0 <= i < w * h implies #[trigger] pixels@[i] == if i < y * w + x + 1 { expected[i] } else { 0u8 } by {
                    if i != y * w + x {
                        assert(pixels@[i] == before[i]);
                    }
                }
            }
            x = x + 1;
        }
        assert((y + 1) * w == y * w + w) by (nonlinear_arith);
        y = y + 1;
    }
    assert(h * w == w * h) by (nonlinear_arith);
    assert(pixels@ =~= expected);
    pixels
}

/// `a` is nowhere above `b` on the first `n` pixels.
pub open spec fn pointwise_le(a: Seq<u8>, b: Seq<u8>, n: int) -> bool {
    forall|i: int| 0 <= i < n ==> #[trigger] a[i] <= #[trigger] b[i]
}

/// Padding keeps pixels in order: a source nowhere above another gives a
/// mask nowhere above the other's.
pub proof fn lemma_padded_mask_monotone(a: Seq<u8>, b: Seq<u8>, source_size: [usize; 2], size: [usize; 2], scale: int, padding: int)
    requires
        0 <= scale,
        0 <= padding,
        source_size[0] * source_size[1] <= a.len(),
        source_size[0] * source_size[1] <= b.len(),
        pointwise_le(a, b, source_size[0] * source_size[1]),
        padding * scale + source_size[0] <= size[0] * scale,
        padding * scale + source_size[1] <= size[1] * scale,
    ensures
        padded_mask_spec(a, source_size, size, scale, padding).len() == size[0] * scale * (size[1] * scale),
        padded_mask_spec(b, source_size, size, scale, padding).len() == size[0] * scale * (size[1] * scale),
        pointwise_le(padded_mask_spec(a, source_size, size, scale, padding),
            padded_mask_spec(b, source_size, size, scale, padding), size[0] * scale * (size[1] * scale)),
{
    let (mw, mh) = (size[0] * scale, size[1] * scale);
    let (sw, sh) = (source_size[0] as int, source_size[1] as int);
    let pad = padding * scale;
    let pa = padded_mask_spec(a, source_size, size, scale, padding);
    let pb = padded_mask_spec(b, source_size, size, scale, padding);
    assert forall|i: int| 0 <= i < mw * mh implies #[trigger] pa[i] <= #[trigger] pb[i] by {
        if in_rect(i, mw, pad, pad, sw, sh) {
            let (c, r) = (i % mw - pad, i / mw - pad);
            lemma_index_bound(c, r, sw, sh);
            assert(sh * sw == sw * sh) by (nonlinear_arith);
            let j = r * sw + c;
            assert(a[j] <= b[j]);
        }
    }
}

proof fn lemma_row_sum_le(a: Seq<u8>, b: Seq<u8>, width: int, x: int, y: int, n: int, len: int)
    requires
        0 <= x,
        0 <= y,
        0 <= n,
        x + n <= width,
        (y + 1) * width <= len,
        pointwise_le(a, b, len),
    ensures
        row_sum(a, width, x, y, n) <= row_sum(b, width, x, y, n),
    decreases n,
{
    if n > 0 {
        lemma_row_sum_le(a, b, width, x, y, n - 1, len);
        assert((y + 1) * width == y * width + width && 0 <= y * width) by (nonlinear_arith)
            requires 0 <= y, 0 <= width;
        let j = y * width + x + n - 1;
        assert(a[j] <= b[j]);
    }
}

proof fn lemma_block_sum_le(a: Seq<u8>, b: Seq<u8>, width: int, x: int, y: int, rows: int, n: int, len: int)
    requires
        0 <= x,
        0 <= y,
        0 <= n,
        0 <= rows,
        x + n <= width,
        (y + rows) * width <= len,
        pointwise_le(a, b, len),
    ensures
        block_sum(a, width, x, y, rows, n) <= block_sum(b, width, x, y, rows, n),
    decreases rows,
{
    if rows > 0 {
        assert((y + rows - 1) * width <= (y + rows) * width) by (nonlinear_arith)
            requires 0 <= width, rows >= 1;
        lemma_block_sum_le(a, b, width, x, y, rows - 1, n, len);
        lemma_row_sum_le(a, b, width, x, y + rows - 1, n, len);
    }
}

/// Averaging keeps pixels in order: an image nowhere above another
/// downsamples to an image nowhere above the other's.
pub proof fn lemma_downsample_monotone(a: Seq<u8>, b: Seq<u8>, size: [usize; 2], scale: int)
    requires
        scale >= 1,
        size[0] * scale * (size[1] * scale) <= a.len(),
        size[0] * scale * (size[1] * scale) <= b.len(),
        pointwise_le(a, b, size[0] * scale * (size[1] * scale)),
    ensures
        pointwise_le(downsample_spec(a, size, scale), downsample_spec(b, size, scale), size[0] * size[1]),
{
    let (w, h, s) = (size[0] as int, size[1] as int, scale);
    let len = w * s * (h * s);
    let da = downsample_spec(a, size, s);
    let db = downsample_spec(b, size, s);
    assert forall|i: int| 0 <= i < w * h implies #[trigger] da[i] <= #[trigger] db[i] by {
        assert(w > 0) by (nonlinear_arith)
            requires 0 <= i < w * h, 0 <= w, 0 <= h;
        lemma_split_index(i, w);
        let (x, y) = (i % w, i / w);
        assert(y < h) by (nonlinear_arith)
            requires i == y * w + x, 0 <= x < w, 0 <= y, i < w * h;
        assert(x * s + s <= w * s && (y * s + s) * (w * s) <= len && 0 <= x * s && 0 <= y * s) by (nonlinear_arith)
            requires 0 <= x < w, 0 <= y < h, s >= 1, len == w * s * (h * s);
        lemma_block_sum_le(a, b, w * s, x * s, y * s, s, s, len);
        lemma_block_sum_bound(a, w * s, x * s, y * s, s, s);
        lemma_block_sum_bound(b, w * s, x * s, y * s, s, s);
        let sa = block_sum(a, w * s, x * s, y * s, s, s);
        let sb = block_sum(b, w * s, x * s, y * s, s, s);
        assert(sa / (s * s) <= sb / (s * s) && sb / (s * s) <= 255 && 0 <= sa / (s * s)) by (nonlinear_arith)
            requires 0 <= sa <= sb <= 255 * s * s, s >= 1;
    }
}

/// The pixel at column `x`, row `y` of a row-major image `width` wide.
pub open spec fn pixel_at(img: Seq<u8>, width: int, x: int, y: int) -> u8 {
    img[y * width + x]
}

/// The `width` x `height` row-major image `img` reads the same from right
/// to left.
pub open spec fn mirrored(img: Seq<u8>, width: int, height: int) -> bool {
    forall|x: int, y: int| #![trigger pixel_at(img, width, x, y)]
        0 <= x < width && 0 <= y < height ==> pixel_at(img, width, x, y) == pixel_at(img, width, width - 1 - x, y)
}

/// Padding that is as wide on the right as on the left keeps a glyph image
/// that reads the same from right to left symmetric.
pub proof fn lemma_padded_mask_mirrored(source: Seq<u8>, source_size: [usize; 2], size: [usize; 2], scale: int, padding: int)
    requires
        0 <= scale,
        0 <= padding,
        mirrored(source, source_size[0] as int, source_size[1] as int),
        size[0] * scale == 2 * (padding * scale) + source_size[0],
        padding * scale + source_size[1] <= size[1] * scale,
    ensures
        mirrored(padded_mask_spec(source, source_size, size, scale, padding), size[0] * scale, size[1] * scale),
{
    let (mw, mh) = (size[0] * scale, size[1] * scale);
    let (sw, sh) = (source_size[0] as int, source_size[1] as int);
    let pad = padding * scale;
    let mask = padded_mask_spec(source, source_size, size, scale, padding);
    assert(0 <= mw * mh) by (nonlinear_arith)
        requires 0 <= mw, 0 <= mh;
    assert forall|x: int, y: int| 0 <= x < mw && 0 <= y < mh implies
        #[trigger] pixel_at(mask, mw, x, y) == pixel_at(mask, mw, mw - 1 - x, y) by {
        let i = y * mw + x;
        let j = y * mw + (mw - 1 - x);
        lemma_row_major(x, y, mw);
        lemma_row_major(mw - 1 - x, y, mw);
        lemma_index_bound(x, y, mw, mh);
        lemma_index_bound(mw - 1 - x, y, mw, mh);
        assert(mh * mw == mw * mh) by (nonlinear_arith);
        if in_rect(i, mw, pad, pad, sw, sh) {
            assert(in_rect(j, mw, pad, pad, sw, sh));
            assert(pixel_at(source, sw, x - pad, y - pad) == pixel_at(source, sw, sw - 1 - (x - pad), y - pad));
        } else {
            assert(!in_rect(j, mw, pad, pad, sw, sh));
        }
    }
}

/// A row sum is its first pixel plus the sum of the rest.
proof fn lemma_row_sum_front(source: Seq<u8>, width: int, x: int, y: int, n: int)
    requires
        n >= 1,
    ensures
        row_sum(source, width, x, y, n) == source[y * width + x] + row_sum(source, width, x + 1, y, n - 1),
    decreases n,
{
    if n > 1 {
        lemma_row_sum_front(source, width, x, y, n - 1);
        assert(y * width + (x + 1) + (n - 1) - 1 == y * width + x + n - 1);
        assert(row_sum(source, width, x + 1, y, n - 1)
            == row_sum(source, width, x + 1, y, n - 2) + source[y * width + x + n - 1]);
    } else {
        assert(row_sum(source, width, x + 1, y, 0) == 0);
        assert(row_sum(source, width, x, y, 0) == 0);
        assert(y * width + x + 1 - 1 == y * width + x);
    }
}

/// In an image that reads the same from right to left, a run of pixels and
/// its mirror image have the same sum.
proof fn lemma_row_sum_mirrored(source: Seq<u8>, width: int, height: int, x: int, y: int, n: int)
    requires
        mirrored(source, width, height),
        0 <= x,
        0 <= n,
        x + n <= width,
        0 <= y < height,
    ensures
        row_sum(source, width, width - x - n, y, n) == row_sum(source, width, x, y, n),
    decreases n,
{
    if n > 0 {
        lemma_row_sum_mirrored(source, width, height, x + 1, y, n - 1);
        lemma_row_sum_front(source, width, x, y, n);
        assert(pixel_at(source, width, x, y) == pixel_at(source, width, width - 1 - x, y));
    }
}

proof fn lemma_block_sum_mirrored(source: Seq<u8>, width: int, height: int, x: int, y: int, rows: int, n: int)
    requires
        mirrored(source, width, height),
        0 <= x,
        0 <= n,
        x + n <= width,
        0 <= y,
        0 <= rows,
        y + rows <= height,
    ensures
        block_sum(source, width, width - x - n, y, rows, n) == block_sum(source, width, x, y, rows, n),
    decreases rows,
{
    if rows > 0 {
        lemma_block_sum_mirrored(source, width, height, x, y, rows - 1, n);
        lemma_row_sum_mirrored(source, width, height, x, y + rows - 1, n);
    }
}

/// Averaging blocks keeps an image that reads the same from right to left
/// symmetric: the blocks of a row mirror each other.
pub proof fn lemma_downsample_mirrored(source: Seq<u8>, size: [usize; 2], scale: int)
    requires
        scale >= 1,
        mirrored(source, size[0] * scale, size[1] * scale),
    ensures
        mirrored(downsample_spec(source, size, scale), size[0] as int, size[1] as int),
{
    let (w, h, s) = (size[0] as int, size[1] as int, scale);
    let out = downsample_spec(source, size, s);
    assert forall|x: int, y: int| 0 <= x < w && 0 <= y < h implies
        #[trigger] pixel_at(out, w, x, y) == pixel_at(out, w, w - 1 - x, y) by {
        lemma_row_major(x, y, w);
        lemma_row_major(w - 1 - x, y, w);
        lemma_index_bound(x, y, w, h);
        lemma_index_bound(w - 1 - x, y, w, h);
        assert(h * w == w * h) by (nonlinear_arith);
        assert((w - 1 - x) * s == w * s - x * s - s && 0 <= x * s && x * s + s <= w * s
            && 0 <= y * s && y * s + s <= h * s) by (nonlinear_arith)
            requires 0 <= x < w, 0 <= y < h, s >= 1;
        lemma_block_sum_mirrored(source, w * s, h * s, x * s, y * s, s, s);
    }
}

/// The `width` x `height` row-major image `img` reads the same from bottom
/// to top.
pub open spec fn flipped(img: Seq<u8>, width: int, height: int) -> bool {
    forall|x: int, y: int| #![trigger pixel_at(img, width, x, y)]
        0 <= x < width && 0 <= y < height ==> pixel_at(img, width, x, y) == pixel_at(img, width, x, height - 1 - y)
}

/// Padding that is as high below as above keeps a glyph image that reads
/// the same from bottom to top symmetric.
pub proof fn lemma_padded_mask_flipped(source: Seq<u8>, source_size: [usize; 2], size: [usize; 2], scale: int, padding: int)
    requires
        0 <= scale,
        0 <= padding,
        flipped(source, source_size[0] as int, source_size[1] as int),
        padding * scale + source_size[0] <= size[0] * scale,
        size[1] * scale == 2 * (padding * scale) + source_size[1],
    ensures
        flipped(padded_mask_spec(source, source_size, size, scale, padding), size[0] * scale, size[1] * scale),
{
    let (mw, mh) = (size[0] * scale, size[1] * scale);
    let (sw, sh) = (source_size[0] as int, source_size[1] as int);
    let pad = padding * scale;
    let mask = padded_mask_spec(source, source_size, size, scale, padding);
    assert(0 <= mw * mh) by (nonlinear_arith)
        requires 0 <= mw, 0 <= mh;
    assert forall|x: int, y: int| 0 <= x < mw && 0 <= y < mh implies
        #[trigger] pixel_at(mask, mw, x, y) == pixel_at(mask, mw, x, mh - 1 - y) by {
        let i = y * mw + x;
        let j = (mh - 1 - y) * mw + x;
        lemma_row_major(x, y, mw);
        lemma_row_major(x, mh - 1 - y, mw);
        lemma_index_bound(x, y, mw, mh);
        lemma_index_bound(x, mh - 1 - y, mw, mh);
        assert(mh * mw == mw * mh) by (nonlinear_arith);
        if in_rect(i, mw, pad, pad, sw, sh) {
            assert(in_rect(j, mw, pad, pad, sw, sh));
            assert(pixel_at(source, sw, x - pad, y - pad) == pixel_at(source, sw, x - pad, sh - 1 - (y - pad)));
        } else {
            assert(!in_rect(j, mw, pad, pad, sw, sh));
        }
    }
}

/// In an image that reads the same from bottom to top, a run of pixels and
/// the same run in the mirrored row have the same sum.
proof fn lemma_row_sum_flipped(source: Seq<u8>, width: int, height: int, x: int, y: int, n: int)
    requires
        flipped(source, width, height),
        0 <= x,
        0 <= n,
        x + n <= width,
        0 <= y < height,
    ensures
        row_sum(source, width, x, height - 1 - y, n) == row_sum(source, width, x, y, n),
    decreases n,
{
    if n > 0 {
        lemma_row_sum_flipped(source, width, height, x, y, n - 1);
        assert(pixel_at(source, width, x + n - 1, y) == pixel_at(source, width, x + n - 1, height - 1 - y));
    }
}

/// A block sum is its first row plus the sum of the rows below it.
proof fn lemma_block_sum_front(source: Seq<u8>, width: int, x: int, y: int, rows: int, n: int)
    requires
        rows >= 1,
    ensures
        block_sum(source, width, x, y, rows, n) == row_sum(source, width, x, y, n) + block_sum(source, width, x, y + 1, rows - 1, n),
    decreases rows,
{
    if rows > 1 {
        lemma_block_sum_front(source, width, x, y, rows - 1, n);
        assert(y + 1 + (rows - 1) - 1 == y + rows - 1);
    } else {
        assert(block_sum(source, width, x, y + 1, 0, n) == 0);
        assert(block_sum(source, width, x, y, 0, n) == 0);
    }
}

proof fn lemma_block_sum_flipped(source: Seq<u8>, width: int, height: int, x: int, y: int, rows: int, n: int)
    requires
        flipped(source, width, height),
        0 <= x,
        0 <= n,
        x + n <= width,
        0 <= y,
        0 <= rows,
        y + rows <= height,
    ensures
        block_sum(source, width, x, height - y - rows, rows, n) == block_sum(source, width, x, y, rows, n),
    decreases rows,
{
    if rows > 0 {
        lemma_block_sum_flipped(source, width, height, x, y + 1, rows - 1, n);
        lemma_block_sum_front(source, width, x, y, rows, n);
        lemma_row_sum_flipped(source, width, height, x, y, n);
        assert(height - y - rows + rows - 1 == height - 1 - y);
        assert(height - (y + 1) - (rows - 1) == height - y - rows);
    }
}

/// Averaging blocks keeps an image that reads the same from bottom to top
/// symmetric: the block rows mirror each other.
pub proof fn lemma_downsample_flipped(source: Seq<u8>, size: [usize; 2], scale: int)
    requires
        scale >= 1,
        flipped(source, size[0] * scale, size[1] * scale),
    ensures
        flipped(downsample_spec(source, size, scale), size[0] as int, size[1] as int),
{
    let (w, h, s) = (size[0] as int, size[1] as int, scale);
    let out = downsample_spec(source, size, s);
    assert forall|x: int, y: int| 0 <= x < w && 0 <= y < h implies
        #[trigger] pixel_at(out, w, x, y) == pixel_at(out, w, x, h - 1 - y) by {
        lemma_row_major(x, y, w);
        lemma_row_major(x, h - 1 - y, w);
        lemma_index_bound(x, y, w, h);
        lemma_index_bound(x, h - 1 - y, w, h);
        assert(h * w == w * h) by (nonlinear_arith);
        assert((h - 1 - y) * s == h * s - y * s - s && 0 <= x * s && x * s + s <= w * s
            && 0 <= y * s && y * s + s <= h * s) by (nonlinear_arith)
            requires 0 <= x < w, 0 <= y < h, s >= 1;
        lemma_block_sum_flipped(source, w * s, h * s, x * s, y * s, s, s);
    }
}

} // verus!
