//! Signed distance fields of glyph masks.
use vstd::prelude::*;
use crate::raster::{flipped, lemma_index_bound, lemma_row_major, lemma_split_index, mirrored, pixel_at};

verus! {

/// How far, in mask pixels, the distance search reaches from each pixel.
pub const SDF_RADIUS: usize = 8;

/// The squared distance reported for a pixel with no pixel of the other
/// side within reach: the square of [`SDF_RADIUS`].
pub const SDF_FAR: usize = 64;

/// The bytes a distance field is built from.
///
/// `blended[m]` is the output for a partly covered pixel of mask value `m`
/// (`0 < m < 255`); `inside[d]` and `outside[d]` are the outputs for a fully
/// covered (`m > 127`) or uncovered pixel whose nearest pixel on the other
/// side lies at squared distance `d` (at most [`SDF_FAR`]).
#[derive(Clone, Copy, Debug)]
pub struct SdfLevels {
    pub blended: [u8; 256],
    pub inside: [u8; 65],
    pub outside: [u8; 65],
}

/// A mask value counts as covered above one half.
pub open spec fn covered(m: u8) -> bool {
    m > 127
}

/// `(dx, dy)` is an offset within the search window.
pub open spec fn in_window(dx: int, dy: int) -> bool {
    -(SDF_RADIUS as int) <= dx <= SDF_RADIUS && -(SDF_RADIUS as int) <= dy <= SDF_RADIUS
}

/// The pixel at offset `(dx, dy)` from `(x, y)` lies in the `width` x
/// `height` mask and on the other side of the glyph's edge.
pub open spec fn across(mask: Seq<u8>, width: int, height: int, x: int, y: int, dx: int, dy: int) -> bool {
    &&& 0 <= x + dx < width
    &&& 0 <= y + dy < height
    &&& covered(mask[(y + dy) * width + x + dx]) != covered(mask[y * width + x])
}

/// `d` is the squared distance from `(x, y)` to the nearest pixel across the
/// edge within the search window, or [`SDF_FAR`] when there is none nearer.
pub open spec fn is_nearest(mask: Seq<u8>, width: int, height: int, x: int, y: int, d: int) -> bool {
    &&& 0 <= d <= SDF_FAR
    &&& forall|dx: int, dy: int| #![trigger across(mask, width, height, x, y, dx, dy)]
        in_window(dx, dy) && across(mask, width, height, x, y, dx, dy) ==> d <= dx * dx + dy * dy
    &&& (d == SDF_FAR || exists|dx: int, dy: int| #![trigger across(mask, width, height, x, y, dx, dy)]
        in_window(dx, dy) && across(mask, width, height, x, y, dx, dy) && d == dx * dx + dy * dy)
}

/// The squared distance that [`is_nearest`] describes (it has exactly one).
pub open spec fn nearest(mask: Seq<u8>, width: int, height: int, x: int, y: int) -> int {
    choose|d: int| is_nearest(mask, width, height, x, y, d)
}

/// Only one squared distance is the nearest one.
pub proof fn lemma_nearest_unique(mask: Seq<u8>, width: int, height: int, x: int, y: int, d1: int, d2: int)
    requires
        is_nearest(mask, width, height, x, y, d1),
        is_nearest(mask, width, height, x, y, d2),
    ensures
        d1 == d2,
{
    if d1 != SDF_FAR {
        let (dx, dy) = choose|dx: int, dy: int| #![trigger across(mask, width, height, x, y, dx, dy)]
            in_window(dx, dy) && across(mask, width, height, x, y, dx, dy) && d1 == dx * dx + dy * dy;
        assert(d2 <= d1);
    }
    if d2 != SDF_FAR {
        let (dx, dy) = choose|dx: int, dy: int| #![trigger across(mask, width, height, x, y, dx, dy)]
            in_window(dx, dy) && across(mask, width, height, x, y, dx, dy) && d2 == dx * dx + dy * dy;
        assert(d1 <= d2);
    }
}

/// The output byte for a pixel of mask value `m` whose nearest pixel across
/// the edge is at squared distance `d`.
pub open spec fn sdf_level(levels: SdfLevels, m: u8, d: int) -> u8 {
    if 0 < m < 255 {
        levels.blended@[m as int]
    } else if covered(m) {
        levels.inside@[d]
    } else {
        levels.outside@[d]
    }
}

/// The distance field of a `width` x `height` mask.
pub open spec fn sdf_spec(mask: Seq<u8>, width: int, height: int, levels: SdfLevels) -> Seq<u8> {
    Seq::new((width * height) as nat, |i: int|
        sdf_level(levels, mask[i], nearest(mask, width, height, i % width, i / width)))
}

/// The offset `(ddx - R, ddy - R)` has been visited by a search that visits
/// offsets row by row, and is now at `(dx_next - R, dy_next - R)`.
pub open spec fn visited(dx: int, dy: int, dx_next: int, dy_next: int) -> bool {
    dy < dy_next || (dy == dy_next && dx < dx_next)
}

/// Squared distance from `(x, y)` to the nearest pixel across the edge within
/// [`SDF_RADIUS`] in both directions, [`SDF_FAR`] at most.
fn nearest_across(mask: &[u8], size: [usize; 2], x: usize, y: usize) -> (d: usize)
    requires
        x < size[0],
        y < size[1],
        size[0] * size[1] <= mask@.len(),
        size[0] + 2 * SDF_RADIUS <= usize::MAX,
        size[1] + 2 * SDF_RADIUS <= usize::MAX,
    ensures
        is_nearest(mask@, size[0] as int, size[1] as int, x as int, y as int, d as int),
{
    let ghost (w, h, r) = (size[0] as int, size[1] as int, SDF_RADIUS as int);
    let mask_len = mask.len();
    proof {
        lemma_index_bound(x as int, y as int, w, h);
        assert(h * w == w * h) by (nonlinear_arith);
    }
    let inside = mask[y * size[0] + x] > 127;
    let mut best: usize = SDF_FAR;
    let mut ddy: usize = 0;
    while ddy <= 2 * SDF_RADIUS
        invariant
            0 <= ddy <= 2 * r + 1,
            w == size[0], h == size[1], r == SDF_RADIUS,
            x < w, y < h,
            w * h <= mask@.len(),
            mask@.len() == mask_len,
            w + 2 * r <= usize::MAX,
            h + 2 * r <= usize::MAX,
            inside == covered(mask@[y * w + x]),
            0 <= best <= SDF_FAR,
            forall|dx: int, dy: int| #![trigger across(mask@, w, h, x as int, y as int, dx, dy)]
                in_window(dx, dy) && visited(dx + r, dy + r, 0, ddy as int) && across(mask@, w, h, x as int, y as int, dx, dy)
                    ==> best <= dx * dx + dy * dy,
            best == SDF_FAR || exists|dx: int, dy: int| #![trigger across(mask@, w, h, x as int, y as int, dx, dy)]
                in_window(dx, dy) && across(mask@, w, h, x as int, y as int, dx, dy) && best == dx * dx + dy * dy,
        decreases 2 * r + 1 - ddy,
    {
        let mut ddx: usize = 0;
        while ddx <= 2 * SDF_RADIUS
            invariant
                0 <= ddy <= 2 * r,
                0 <= ddx <= 2 * r + 1,
                w == size[0], h == size[1], r == SDF_RADIUS,
                x < w, y < h,
                w * h <= mask@.len(),
                mask@.len() == mask_len,
                w + 2 * r <= usize::MAX,
                h + 2 * r <= usize::MAX,
                inside == covered(mask@[y * w + x]),
                0 <= best <= SDF_FAR,
                forall|dx: int, dy: int| #![trigger across(mask@, w, h, x as int, y as int, dx, dy)]
                    in_window(dx, dy) && visited(dx + r, dy + r, ddx as int, ddy as int) && across(mask@, w, h, x as int, y as int, dx, dy)
                        ==> best <= dx * dx + dy * dy,
                best == SDF_FAR || exists|dx: int, dy: int| #![trigger across(mask@, w, h, x as int, y as int, dx, dy)]
                    in_window(dx, dy) && across(mask@, w, h, x as int, y as int, dx, dy) && best == dx * dx + dy * dy,
            decreases 2 * r + 1 - ddx,
        {
            let ghost (dx, dy) = (ddx - r, ddy - r);
            if x + ddx >= SDF_RADIUS && y + ddy >= SDF_RADIUS
                && x + ddx - SDF_RADIUS < size[0] && y + ddy - SDF_RADIUS < size[1]
            {
                let nx = x + ddx - SDF_RADIUS;
                let ny = y + ddy - SDF_RADIUS;
                proof {
                    lemma_index_bound(nx as int, ny as int, w, h);
                    assert(h * w == w * h) by (nonlinear_arith);
                }
                let neighbor_inside = mask[ny * size[0] + nx] > 127;
                if neighbor_inside != inside {
                    let adx = if ddx >= SDF_RADIUS { ddx - SDF_RADIUS } else { SDF_RADIUS - ddx };
                    let ady = if ddy >= SDF_RADIUS { ddy - SDF_RADIUS } else { SDF_RADIUS - ddy };
                    proof {
                        assert(adx * adx == dx * dx && ady * ady == dy * dy && adx * adx <= 64 && ady * ady <= 64) by (nonlinear_arith)
                            requires
                                adx == (if dx >= 0 { dx } else { -dx }),
                                ady == (if dy >= 0 { dy } else { -dy }),
                                adx <= 8, ady <= 8;
                        assert(across(mask@, w, h, x as int, y as int, dx, dy));
                    }
                    let distance = adx * adx + ady * ady;
                    if distance < best {
                        best = distance;
                    }
                } else {
                    assert(!across(mask@, w, h, x as int, y as int, dx, dy));
                }
            } else {
                assert(!across(mask@, w, h, x as int, y as int, dx, dy));
            }
            ddx = ddx + 1;
        }
        ddy = ddy + 1;
    }
    best
}

/// The distance field of a `size[0]` x `size[1]` glyph mask: each pixel
/// becomes the level for its mask value and its squared distance to the
/// nearest pixel across the glyph's edge (see [`sdf_spec`]).
pub fn sdf(mask: &[u8], size: [usize; 2], levels: &SdfLevels) -> (field: Vec<u8>)
    requires
        size[0] * size[1] <= mask@.len(),
        size[0] + 2 * SDF_RADIUS <= usize::MAX,
        size[1] + 2 * SDF_RADIUS <= usize::MAX,
    ensures
        field@ == sdf_spec(mask@, size[0] as int, size[1] as int, *levels),
{
    let ghost (w, h) = (size[0] as int, size[1] as int);
    let mask_len = mask.len();
    let mut field: Vec<u8> = vec![0u8; size[0] * size[1]];
    let ghost expected = sdf_spec(mask@, w, h, *levels);
    let mut y: usize = 0;
    while y < size[1]
        invariant
            0 <= y <= h,
            w == size[0], h == size[1],
            w * h <= mask@.len(),
            mask@.len() == mask_len,
            w + 2 * SDF_RADIUS <= usize::MAX,
            h + 2 * SDF_RADIUS <= usize::MAX,
            expected == sdf_spec(mask@, w, h, *levels),
            field@.len() == w * h,
            forall|i: int| 0 <= i < w * h ==> #[trigger] field@[i] == if i < y * w { expected[i] } else { 0u8 },
        decreases h - y,
    {
        let mut x: usize = 0;
        while x < size[0]
            invariant
                0 <= y < h,
                0 <= x <= w,
                w == size[0], h == size[1],
                w * h <= mask@.len(),
                mask@.len() == mask_len,
                w + 2 * SDF_RADIUS <= usize::MAX,
                h + 2 * SDF_RADIUS <= usize::MAX,
                expected == sdf_spec(mask@, w, h, *levels),
                field@.len() == w * h,
                forall|i: int| 0 <= i < w * h ==> #[trigger] field@[i] == if i < y * w + x { expected[i] } else { 0u8 },
            decreases w - x,
        {
            let d = nearest_across(mask, size, x, y);
            proof {
                lemma_index_bound(x as int, y as int, w, h);
                assert(h * w == w * h) by (nonlinear_arith);
                lemma_row_major(x as int, y as int, w);
                lemma_nearest_unique(mask@, w, h, x as int, y as int, d as int, nearest(mask@, w, h, x as int, y as int));
            }
            let index = y * size[0] + x;
            let m = mask[index];
            let value = if m > 0 && m < 255 {
                levels.blended[m as usize]
            } else if m > 127 {
                levels.inside[d]
            } else {
                levels.outside[d]
            };
            let ghost before = field@;
            field.set(index, value);
            proof {
                assert forall|i: int| 0 <= i < w * h implies #[trigger] field@[i] == if i < y * w + x + 1 { expected[i] } else { 0u8 } by {
                    if i != y * w + x {
                        assert(field@[i] == before[i]);
                    }
                }
            }
            x = x + 1;
        }
        assert((y + 1) * w == y * w + w) by (nonlinear_arith);
        y = y + 1;
    }
    assert(h * w == w * h) by (nonlinear_arith);
    assert(field@ =~= expected);
    field
}

/// The squared distance of offset `(dx, dy)` if it reaches across the edge,
/// else [`SDF_FAR`].
pub open spec fn across_distance(mask: Seq<u8>, width: int, height: int, x: int, y: int, dx: int, dy: int) -> int {
    if across(mask, width, height, x, y, dx, dy) { dx * dx + dy * dy } else { SDF_FAR as int }
}

/// The smaller of two integers.
pub open spec fn min_int(a: int, b: int) -> int {
    if a <= b { a } else { b }
}

/// The nearest squared distance across the edge among the first `n`
/// offsets of row `dy` of the search window, [`SDF_FAR`] at most.
pub open spec fn row_nearest(mask: Seq<u8>, width: int, height: int, x: int, y: int, dy: int, n: int) -> int
    decreases n,
{
    if n <= 0 {
        SDF_FAR as int
    } else {
        min_int(row_nearest(mask, width, height, x, y, dy, n - 1),
            across_distance(mask, width, height, x, y, n - 1 - SDF_RADIUS, dy))
    }
}

/// The nearest squared distance across the edge among the first `rows`
/// rows of the search window, [`SDF_FAR`] at most.
pub open spec fn window_nearest(mask: Seq<u8>, width: int, height: int, x: int, y: int, rows: int) -> int
    decreases rows,
{
    if rows <= 0 {
        SDF_FAR as int
    } else {
        min_int(window_nearest(mask, width, height, x, y, rows - 1),
            row_nearest(mask, width, height, x, y, rows - 1 - SDF_RADIUS, 2 * SDF_RADIUS + 1))
    }
}

proof fn lemma_row_nearest(mask: Seq<u8>, width: int, height: int, x: int, y: int, dy: int, n: int)
    requires
        0 <= n <= 2 * SDF_RADIUS + 1,
        -(SDF_RADIUS as int) <= dy <= SDF_RADIUS,
    ensures
        0 <= row_nearest(mask, width, height, x, y, dy, n) <= SDF_FAR,
        forall|dx: int| #![trigger across(mask, width, height, x, y, dx, dy)]
            -(SDF_RADIUS as int) <= dx < n - SDF_RADIUS && across(mask, width, height, x, y, dx, dy)
                ==> row_nearest(mask, width, height, x, y, dy, n) <= dx * dx + dy * dy,
        row_nearest(mask, width, height, x, y, dy, n) == SDF_FAR
            || exists|dx: int| #![trigger across(mask, width, height, x, y, dx, dy)]
                -(SDF_RADIUS as int) <= dx < n - SDF_RADIUS && across(mask, width, height, x, y, dx, dy)
                    && row_nearest(mask, width, height, x, y, dy, n) == dx * dx + dy * dy,
    decreases n,
{
    if n > 0 {
        lemma_row_nearest(mask, width, height, x, y, dy, n - 1);
        let dx = n - 1 - SDF_RADIUS;
        assert(dx * dx + dy * dy >= 0) by (nonlinear_arith);
        if across(mask, width, height, x, y, dx, dy) {
        }
    }
}

proof fn lemma_window_nearest(mask: Seq<u8>, width: int, height: int, x: int, y: int, rows: int)
    requires
        0 <= rows <= 2 * SDF_RADIUS + 1,
    ensures
        0 <= window_nearest(mask, width, height, x, y, rows) <= SDF_FAR,
        forall|dx: int, dy: int| #![trigger across(mask, width, height, x, y, dx, dy)]
            in_window(dx, dy) && dy < rows - SDF_RADIUS && across(mask, width, height, x, y, dx, dy)
                ==> window_nearest(mask, width, height, x, y, rows) <= dx * dx + dy * dy,
        window_nearest(mask, width, height, x, y, rows) == SDF_FAR
            || exists|dx: int, dy: int| #![trigger across(mask, width, height, x, y, dx, dy)]
                in_window(dx, dy) && across(mask, width, height, x, y, dx, dy)
                    && window_nearest(mask, width, height, x, y, rows) == dx * dx + dy * dy,
    decreases rows,
{
    if rows > 0 {
        lemma_window_nearest(mask, width, height, x, y, rows - 1);
        let dy = rows - 1 - SDF_RADIUS;
        lemma_row_nearest(mask, width, height, x, y, dy, 2 * SDF_RADIUS + 1);
    }
}

/// Every pixel has a nearest squared distance across the edge.
pub proof fn lemma_nearest_exists(mask: Seq<u8>, width: int, height: int, x: int, y: int)
    ensures
        is_nearest(mask, width, height, x, y, nearest(mask, width, height, x, y)),
{
    lemma_window_nearest(mask, width, height, x, y, 2 * SDF_RADIUS + 1);
    assert(is_nearest(mask, width, height, x, y, window_nearest(mask, width, height, x, y, 2 * SDF_RADIUS + 1)));
}

/// The nearest pixel across the edge is never the pixel itself: the
/// squared distance is at least 1.
pub proof fn lemma_nearest_positive(mask: Seq<u8>, width: int, height: int, x: int, y: int, d: int)
    requires
        is_nearest(mask, width, height, x, y, d),
    ensures
        1 <= d <= SDF_FAR,
{
    if d != SDF_FAR {
        let (dx, dy) = choose|dx: int, dy: int| #![trigger across(mask, width, height, x, y, dx, dy)]
            in_window(dx, dy) && across(mask, width, height, x, y, dx, dy) && d == dx * dx + dy * dy;
        if dx == 0 && dy == 0 {
            assert((y + dy) * width + x + dx == y * width + x);
        }
        assert(dx * dx + dy * dy >= 1) by (nonlinear_arith)
            requires dx != 0 || dy != 0;
    }
}

/// When every offset that reaches across the edge in `a` also does in `b`,
/// the nearest squared distance in `b` is at most that in `a`.
proof fn lemma_nearest_le(a: Seq<u8>, b: Seq<u8>, width: int, height: int, x: int, y: int, da: int, db: int)
    requires
        is_nearest(a, width, height, x, y, da),
        is_nearest(b, width, height, x, y, db),
        forall|dx: int, dy: int| #![trigger across(a, width, height, x, y, dx, dy)]
            in_window(dx, dy) && across(a, width, height, x, y, dx, dy) ==> across(b, width, height, x, y, dx, dy),
    ensures
        db <= da,
{
    if da != SDF_FAR {
        let (dx, dy) = choose|dx: int, dy: int| #![trigger across(a, width, height, x, y, dx, dy)]
            in_window(dx, dy) && across(a, width, height, x, y, dx, dy) && da == dx * dx + dy * dy;
        assert(across(b, width, height, x, y, dx, dy));
    }
}

/// The level table orders distance values as a distance field must: more
/// coverage of a partly covered pixel, a covered pixel farther from the edge,
/// or an uncovered pixel nearer to it never gives a lower value, and
/// uncovered pixels stay below partly covered ones, which stay below covered
/// ones. Only distances from 1 up to [`SDF_FAR`] occur.
pub open spec fn levels_ordered(levels: SdfLevels) -> bool {
    &&& forall|m1: int, m2: int| #![trigger levels.blended@[m1], levels.blended@[m2]]
        1 <= m1 <= m2 <= 254 ==> levels.blended@[m1] <= levels.blended@[m2]
    &&& forall|d1: int, d2: int| #![trigger levels.inside@[d1], levels.inside@[d2]]
        1 <= d1 <= d2 <= SDF_FAR ==> levels.inside@[d1] <= levels.inside@[d2]
    &&& forall|d1: int, d2: int| #![trigger levels.outside@[d1], levels.outside@[d2]]
        1 <= d1 <= d2 <= SDF_FAR ==> levels.outside@[d2] <= levels.outside@[d1]
    &&& forall|m: int, d: int| #![trigger levels.blended@[m], levels.outside@[d]]
        1 <= m <= 254 && 1 <= d <= SDF_FAR ==> levels.outside@[d] <= levels.blended@[m]
    &&& forall|m: int, d: int| #![trigger levels.blended@[m], levels.inside@[d]]
        1 <= m <= 254 && 1 <= d <= SDF_FAR ==> levels.blended@[m] <= levels.inside@[d]
    &&& forall|d1: int, d2: int| #![trigger levels.outside@[d1], levels.inside@[d2]]
        1 <= d1 <= SDF_FAR && 1 <= d2 <= SDF_FAR ==> levels.outside@[d1] <= levels.inside@[d2]
}

proof fn lemma_sdf_pixel_monotone(m1: Seq<u8>, m2: Seq<u8>, width: int, height: int, levels: SdfLevels, i: int)
    requires
        levels_ordered(levels),
        0 <= width,
        0 <= height,
        0 <= i < width * height,
        width * height <= m1.len(),
        width * height <= m2.len(),
        forall|j: int| 0 <= j < width * height ==> #[trigger] m1[j] <= #[trigger] m2[j],
    ensures
        sdf_spec(m1, width, height, levels)[i] <= sdf_spec(m2, width, height, levels)[i],
{
    assert(width > 0) by (nonlinear_arith)
        requires 0 <= i < width * height, 0 <= width, 0 <= height;
    lemma_split_index(i, width);
    let (x, y) = (i % width, i / width);
    assert(y < height) by (nonlinear_arith)
        requires i == y * width + x, 0 <= x < width, 0 <= y, i < width * height;
    let d1 = nearest(m1, width, height, x, y);
    let d2 = nearest(m2, width, height, x, y);
    lemma_nearest_exists(m1, width, height, x, y);
    lemma_nearest_exists(m2, width, height, x, y);
    lemma_nearest_positive(m1, width, height, x, y, d1);
    lemma_nearest_positive(m2, width, height, x, y, d2);
    let (a, b) = (m1[i], m2[i]);
    assert(y * width + x == i);
    assert(a <= b);
    if a == 0 && b == 0 {
        assert forall|dx: int, dy: int| #![trigger across(m1, width, height, x, y, dx, dy)]
            in_window(dx, dy) && across(m1, width, height, x, y, dx, dy) implies across(m2, width, height, x, y, dx, dy) by {
            lemma_index_bound(x + dx, y + dy, width, height);
            assert(height * width == width * height) by (nonlinear_arith);
            let j = (y + dy) * width + x + dx;
            assert(m1[j] <= m2[j]);
        }
        lemma_nearest_le(m1, m2, width, height, x, y, d1, d2);
        assert(levels.outside@[d1] <= levels.outside@[d2]);
    } else if a == 255 && b == 255 {
        assert forall|dx: int, dy: int| #![trigger across(m2, width, height, x, y, dx, dy)]
            in_window(dx, dy) && across(m2, width, height, x, y, dx, dy) implies across(m1, width, height, x, y, dx, dy) by {
            lemma_index_bound(x + dx, y + dy, width, height);
            assert(height * width == width * height) by (nonlinear_arith);
            let j = (y + dy) * width + x + dx;
            assert(m1[j] <= m2[j]);
        }
        lemma_nearest_le(m2, m1, width, height, x, y, d2, d1);
        assert(levels.inside@[d1] <= levels.inside@[d2]);
    } else if a == 0 {
        if b == 255 {
            assert(levels.outside@[d1] <= levels.inside@[d2]);
        } else {
            assert(levels.outside@[d1] <= levels.blended@[b as int]);
        }
    } else if b == 255 {
        assert(levels.blended@[a as int] <= levels.inside@[d2]);
    } else {
        assert(levels.blended@[a as int] <= levels.blended@[b as int]);
    }
}

/// More coverage never lowers a distance value: with an ordered level table
/// (see [`levels_ordered`]), a mask that is nowhere less covered than another
/// gives a distance field that is nowhere lower.
pub proof fn lemma_sdf_monotone(m1: Seq<u8>, m2: Seq<u8>, width: int, height: int, levels: SdfLevels)
    requires
        levels_ordered(levels),
        0 <= width,
        0 <= height,
        width * height <= m1.len(),
        width * height <= m2.len(),
        forall|i: int| 0 <= i < width * height ==> #[trigger] m1[i] <= #[trigger] m2[i],
    ensures
        forall|i: int| 0 <= i < width * height
            ==> #[trigger] sdf_spec(m1, width, height, levels)[i] <= sdf_spec(m2, width, height, levels)[i],
{
    assert forall|i: int| 0 <= i < width * height
        implies #[trigger] sdf_spec(m1, width, height, levels)[i] <= sdf_spec(m2, width, height, levels)[i] by {
        lemma_sdf_pixel_monotone(m1, m2, width, height, levels, i);
    }
}

/// A sequence that never falls between neighbours in `lo..=hi` never falls.
proof fn lemma_rising(s: Seq<u8>, lo: int, hi: int)
    requires
        forall|k: int| lo <= k < hi ==> #[trigger] s[k] <= s[k + 1],
    ensures
        forall|a: int, b: int| #![trigger s[a], s[b]] lo <= a <= b <= hi ==> s[a] <= s[b],
    decreases hi - lo,
{
    if lo < hi {
        lemma_rising(s, lo + 1, hi);
        assert forall|a: int, b: int| #![trigger s[a], s[b]] lo <= a <= b <= hi implies s[a] <= s[b] by {
            if a == lo && b > lo {
                assert(s[lo] <= s[lo + 1]);
                assert(s[lo + 1] <= s[b]);
            }
        }
    }
}

/// A sequence that never rises between neighbours in `lo..=hi` never rises.
proof fn lemma_falling(s: Seq<u8>, lo: int, hi: int)
    requires
        forall|k: int| lo <= k < hi ==> #[trigger] s[k + 1] <= s[k],
    ensures
        forall|a: int, b: int| #![trigger s[a], s[b]] lo <= a <= b <= hi ==> s[b] <= s[a],
    decreases hi - lo,
{
    if lo < hi {
        lemma_falling(s, lo + 1, hi);
        assert forall|a: int, b: int| #![trigger s[a], s[b]] lo <= a <= b <= hi implies s[b] <= s[a] by {
            if a == lo && b > lo {
                assert(s[lo + 1] <= s[lo]);
                assert(s[b] <= s[lo + 1]);
            }
        }
    }
}

impl SdfLevels {
    /// Whether the table is ordered as a distance field needs (see
    /// [`levels_ordered`]).
    pub fn is_ordered(&self) -> (ordered: bool)
        ensures
            ordered == levels_ordered(*self),
    {
        let ghost (bl, ins, out) = (self.blended@, self.inside@, self.outside@);
        let mut m: usize = 1;
        while m < 254
            invariant
                1 <= m <= 254,
                bl == self.blended@,
                forall|k: int| 1 <= k < m ==> #[trigger] bl[k] <= bl[k + 1],
            decreases 254 - m,
        {
            if self.blended[m] > self.blended[m + 1] {
                assert(!(bl[m as int] <= bl[m + 1]));
                return false;
            }
            m = m + 1;
        }
        let mut d: usize = 1;
        while d < SDF_FAR
            invariant
                1 <= d <= SDF_FAR,
                ins == self.inside@,
                out == self.outside@,
                forall|k: int| 1 <= k < d ==> #[trigger] ins[k] <= ins[k + 1],
                forall|k: int| 1 <= k < d ==> #[trigger] out[k + 1] <= out[k],
            decreases SDF_FAR - d,
        {
            if self.inside[d] > self.inside[d + 1] {
                assert(!(ins[d as int] <= ins[d + 1]));
                return false;
            }
            if self.outside[d + 1] > self.outside[d] {
                assert(!(out[d + 1] <= out[d as int]));
                return false;
            }
            d = d + 1;
        }
        if self.outside[1] > self.blended[1] {
            assert(!(out[1] <= bl[1]));
            return false;
        }
        if self.blended[254] > self.inside[1] {
            assert(!(bl[254] <= ins[1]));
            return false;
        }
        proof {
            lemma_rising(bl, 1, 254);
            lemma_rising(ins, 1, SDF_FAR as int);
            lemma_falling(out, 1, SDF_FAR as int);
            assert forall|mm: int, dd: int| #![trigger bl[mm], out[dd]]
                1 <= mm <= 254 && 1 <= dd <= SDF_FAR implies out[dd] <= bl[mm] by {
                assert(out[dd] <= out[1]);
                assert(bl[1] <= bl[mm]);
            }
            assert forall|mm: int, dd: int| #![trigger bl[mm], ins[dd]]
                1 <= mm <= 254 && 1 <= dd <= SDF_FAR implies bl[mm] <= ins[dd] by {
                assert(bl[mm] <= bl[254]);
                assert(ins[1] <= ins[dd]);
            }
            assert forall|d1: int, d2: int| #![trigger out[d1], ins[d2]]
                1 <= d1 <= SDF_FAR && 1 <= d2 <= SDF_FAR implies out[d1] <= ins[d2] by {
                assert(out[d1] <= out[1]);
                assert(bl[1] <= bl[254]);
                assert(ins[1] <= ins[d2]);
            }
        }
        true
    }
}

/// In a mask that reads the same from right to left, the pixel at offset
/// `(dx, dy)` from `(x, y)` lies across the edge exactly when the one at
/// `(-dx, dy)` from the mirrored pixel does.
proof fn lemma_across_mirrored(mask: Seq<u8>, width: int, height: int, x: int, y: int, dx: int, dy: int)
    requires
        mirrored(mask, width, height),
        0 <= x < width,
        0 <= y < height,
    ensures
        across(mask, width, height, width - 1 - x, y, -dx, dy) == across(mask, width, height, x, y, dx, dy),
{
    assert(pixel_at(mask, width, x, y) == pixel_at(mask, width, width - 1 - x, y));
    if 0 <= x + dx < width && 0 <= y + dy < height {
        assert(pixel_at(mask, width, x + dx, y + dy) == pixel_at(mask, width, width - 1 - (x + dx), y + dy));
        assert((y + dy) * width + (width - 1 - x) + (-dx) == (y + dy) * width + (width - 1 - (x + dx)));
    }
}

/// In a mask that reads the same from right to left, a pixel and its mirror
/// image are equally far from the edge.
proof fn lemma_nearest_mirrored(mask: Seq<u8>, width: int, height: int, x: int, y: int)
    requires
        mirrored(mask, width, height),
        0 <= x < width,
        0 <= y < height,
    ensures
        nearest(mask, width, height, width - 1 - x, y) == nearest(mask, width, height, x, y),
{
    let mx = width - 1 - x;
    let d = nearest(mask, width, height, x, y);
    lemma_nearest_exists(mask, width, height, x, y);
    lemma_nearest_exists(mask, width, height, mx, y);
    assert forall|dx: int, dy: int| #![trigger across(mask, width, height, mx, y, dx, dy)]
        in_window(dx, dy) && across(mask, width, height, mx, y, dx, dy) implies d <= dx * dx + dy * dy by {
        lemma_across_mirrored(mask, width, height, x, y, -dx, dy);
        assert(-(-dx) == dx);
        assert(across(mask, width, height, x, y, -dx, dy));
        assert((-dx) * (-dx) == dx * dx) by (nonlinear_arith);
    }
    if d != SDF_FAR {
        let (dx, dy) = choose|dx: int, dy: int| #![trigger across(mask, width, height, x, y, dx, dy)]
            in_window(dx, dy) && across(mask, width, height, x, y, dx, dy) && d == dx * dx + dy * dy;
        lemma_across_mirrored(mask, width, height, x, y, dx, dy);
        assert((-dx) * (-dx) == dx * dx) by (nonlinear_arith);
        assert(in_window(-dx, dy) && across(mask, width, height, mx, y, -dx, dy) && d == (-dx) * (-dx) + dy * dy);
    }
    assert(is_nearest(mask, width, height, mx, y, d));
    lemma_nearest_unique(mask, width, height, mx, y, d, nearest(mask, width, height, mx, y));
}

/// The distance field of a mask that reads the same from right to left
/// reads the same from right to left: each pixel's value depends only on
/// its own coverage and its distance to the edge.
pub proof fn lemma_sdf_mirrored(mask: Seq<u8>, width: int, height: int, levels: SdfLevels)
    requires
        mirrored(mask, width, height),
    ensures
        mirrored(sdf_spec(mask, width, height, levels), width, height),
{
    let field = sdf_spec(mask, width, height, levels);
    assert forall|x: int, y: int| 0 <= x < width && 0 <= y < height implies
        #[trigger] pixel_at(field, width, x, y) == pixel_at(field, width, width - 1 - x, y) by {
        lemma_row_major(x, y, width);
        lemma_row_major(width - 1 - x, y, width);
        lemma_index_bound(x, y, width, height);
        lemma_index_bound(width - 1 - x, y, width, height);
        assert(height * width == width * height) by (nonlinear_arith);
        assert(pixel_at(mask, width, x, y) == pixel_at(mask, width, width - 1 - x, y));
        lemma_nearest_mirrored(mask, width, height, x, y);
    }
}

/// In a mask that reads the same from bottom to top, the pixel at offset
/// `(dx, dy)` from `(x, y)` lies across the edge exactly when the one at
/// `(dx, -dy)` from the mirrored pixel does.
proof fn lemma_across_flipped(mask: Seq<u8>, width: int, height: int, x: int, y: int, dx: int, dy: int)
    requires
        flipped(mask, width, height),
        0 <= x < width,
        0 <= y < height,
    ensures
        across(mask, width, height, x, height - 1 - y, dx, -dy) == across(mask, width, height, x, y, dx, dy),
{
    assert(pixel_at(mask, width, x, y) == pixel_at(mask, width, x, height - 1 - y));
    if 0 <= x + dx < width && 0 <= y + dy < height {
        assert(pixel_at(mask, width, x + dx, y + dy) == pixel_at(mask, width, x + dx, height - 1 - (y + dy)));
        assert((height - 1 - y + (-dy)) * width + x + dx == (height - 1 - (y + dy)) * width + (x + dx));
    }
}

/// In a mask that reads the same from bottom to top, a pixel and its mirror
/// image are equally far from the edge.
proof fn lemma_nearest_flipped(mask: Seq<u8>, width: int, height: int, x: int, y: int)
    requires
        flipped(mask, width, height),
        0 <= x < width,
        0 <= y < height,
    ensures
        nearest(mask, width, height, x, height - 1 - y) == nearest(mask, width, height, x, y),
{
    let my = height - 1 - y;
    let d = nearest(mask, width, height, x, y);
    lemma_nearest_exists(mask, width, height, x, y);
    lemma_nearest_exists(mask, width, height, x, my);
    assert forall|dx: int, dy: int| #![trigger across(mask, width, height, x, my, dx, dy)]
        in_window(dx, dy) && across(mask, width, height, x, my, dx, dy) implies d <= dx * dx + dy * dy by {
        lemma_across_flipped(mask, width, height, x, y, dx, -dy);
        assert(-(-dy) == dy);
        assert(across(mask, width, height, x, y, dx, -dy));
        assert((-dy) * (-dy) == dy * dy) by (nonlinear_arith);
    }
    if d != SDF_FAR {
        let (dx, dy) = choose|dx: int, dy: int| #![trigger across(mask, width, height, x, y, dx, dy)]
            in_window(dx, dy) && across(mask, width, height, x, y, dx, dy) && d == dx * dx + dy * dy;
        lemma_across_flipped(mask, width, height, x, y, dx, dy);
        assert((-dy) * (-dy) == dy * dy) by (nonlinear_arith);
        assert(in_window(dx, -dy) && across(mask, width, height, x, my, dx, -dy) && d == dx * dx + (-dy) * (-dy));
    }
    assert(is_nearest(mask, width, height, x, my, d));
    lemma_nearest_unique(mask, width, height, x, my, d, nearest(mask, width, height, x, my));
}

/// The distance field of a mask that reads the same from bottom to top
/// reads the same from bottom to top.
pub proof fn lemma_sdf_flipped(mask: Seq<u8>, width: int, height: int, levels: SdfLevels)
    requires
        flipped(mask, width, height),
    ensures
        flipped(sdf_spec(mask, width, height, levels), width, height),
{
    let field = sdf_spec(mask, width, height, levels);
    assert forall|x: int, y: int| 0 <= x < width && 0 <= y < height implies
        #[trigger] pixel_at(field, width, x, y) == pixel_at(field, width, x, height - 1 - y) by {
        lemma_row_major(x, y, width);
        lemma_row_major(x, height - 1 - y, width);
        lemma_index_bound(x, y, width, height);
        lemma_index_bound(x, height - 1 - y, width, height);
        assert(height * width == width * height) by (nonlinear_arith);
        assert(pixel_at(mask, width, x, y) == pixel_at(mask, width, x, height - 1 - y));
        lemma_nearest_flipped(mask, width, height, x, y);
    }
}

} // verus!
