//! Foreground geometry of a binary page mask: the pixel count and bounding box
//! of the foreground, the foreground box of a column band, and the padded crop
//! rectangle around a box.
use vstd::prelude::*;

verus! {

/// A half-open pixel rectangle `[x0, x1) x [y0, y1)`.
#[derive(Debug, Clone, Copy, PartialEq, Eq)]
pub struct BoundingBox {
    pub x0: u32,
    pub y0: u32,
    pub x1: u32,
    pub y1: u32,
}

impl BoundingBox {
    /// `x1 - x0`.
    pub fn width(&self) -> (r: u32)
        requires
            self.x0 <= self.x1,
        ensures
            r == self.x1 - self.x0,
    {
        self.x1 - self.x0
    }

    /// `y1 - y0`.
    pub fn height(&self) -> (r: u32)
        requires
            self.y0 <= self.y1,
        ensures
            r == self.y1 - self.y0,
    {
        self.y1 - self.y0
    }
}

/// The foreground box of a column band of a mask.
#[derive(Debug, Clone, Copy)]
pub struct RegionBounds {
    pub bbox: BoundingBox,
}

/// A single-channel mask, row by row: pixel `(x, y)` is `data[y * width + x]`.
pub struct GrayMask {
    pub width: u32,
    pub height: u32,
    pub data: Vec<u8>,
}

impl GrayMask {
    /// The buffer holds exactly one byte per pixel.
    pub open spec fn wf(&self) -> bool {
        self.data@.len() == self.width as int * self.height as int
    }

    /// Pixel `(x, y)` belongs to the foreground.
    pub open spec fn is_fg(&self, x: int, y: int) -> bool {
        &&& 0 <= x < self.width
        &&& 0 <= y < self.height
        &&& self.data@[y * self.width + x] > 0
    }
}

// ---------------------------------------------------------------------------
// Whole-mask foreground
// ---------------------------------------------------------------------------

/// The number of nonzero bytes among the first `n` of `data`.
pub open spec fn count_nonzero(data: Seq<u8>, n: int) -> nat
    decreases n,
{
    if n <= 0 {
        0
    } else {
        count_nonzero(data, n - 1) + if data[n - 1] > 0 {
            1nat
        } else {
            0nat
        }
    }
}

/// `b` is the smallest box holding the foreground pixels among the first `n`
/// bytes, byte `i` standing at column `i % w`, row `i / w`.
pub open spec fn is_tight_box(data: Seq<u8>, w: int, n: int, b: BoundingBox) -> bool {
    &&& forall|i: int|
        0 <= i < n && #[trigger] data[i] > 0 ==> b.x0 <= i % w < b.x1 && b.y0 <= i / w < b.y1
    &&& exists|i: int| 0 <= i < n && #[trigger] data[i] > 0 && i % w == b.x0
    &&& exists|i: int| 0 <= i < n && #[trigger] data[i] > 0 && i % w + 1 == b.x1
    &&& exists|i: int| 0 <= i < n && #[trigger] data[i] > 0 && i / w == b.y0
    &&& exists|i: int| 0 <= i < n && #[trigger] data[i] > 0 && i / w + 1 == b.y1
}

/// Some byte among the first `n` is nonzero.
pub open spec fn has_nonzero(data: Seq<u8>, n: int) -> bool {
    exists|i: int| 0 <= i < n && #[trigger] data[i] > 0
}

proof fn lemma_count_bound(data: Seq<u8>, n: int)
    requires
        0 <= n,
    ensures
        count_nonzero(data, n) <= n,
    decreases n,
{
    if n > 0 {
        lemma_count_bound(data, n - 1);
    }
}

proof fn lemma_count_positive(data: Seq<u8>, n: int)
    requires
        0 <= n <= data.len(),
    ensures
        count_nonzero(data, n) > 0 <==> has_nonzero(data, n),
    decreases n,
{
    if n > 0 {
        lemma_count_positive(data, n - 1);
        if has_nonzero(data, n) && !has_nonzero(data, n - 1) {
            let i = choose|i: int| 0 <= i < n && #[trigger] data[i] > 0;
            assert(i == n - 1);
        }
        if has_nonzero(data, n - 1) {
            let i = choose|i: int| 0 <= i < n - 1 && #[trigger] data[i] > 0;
            assert(0 <= i < n && data[i] > 0);
        }
    }
}

/// The tight box of a row-by-row buffer of `n` bytes, `w` to a row, is a
/// non-empty box inside the rows those bytes fill: `x0 < x1 <= w`, `y0 < y1`,
/// and its last row starts before byte `n`.
pub proof fn lemma_tight_box_bounds(data: Seq<u8>, w: int, n: int, b: BoundingBox)
    requires
        w > 0,
        0 <= n,
        is_tight_box(data, w, n, b),
    ensures
        b.x0 < b.x1 <= w,
        b.y0 < b.y1,
        (b.y1 - 1) * w < n,
{
    let i0 = choose|i: int| 0 <= i < n && #[trigger] data[i] > 0 && i % w == b.x0;
    let i1 = choose|i: int| 0 <= i < n && #[trigger] data[i] > 0 && i % w + 1 == b.x1;
    let i2 = choose|i: int| 0 <= i < n && #[trigger] data[i] > 0 && i / w == b.y0;
    let i3 = choose|i: int| 0 <= i < n && #[trigger] data[i] > 0 && i / w + 1 == b.y1;
    assert(b.x0 <= i0 % w < b.x1);
    assert(b.y0 <= i2 / w < b.y1);
    assert(i1 % w < w) by (nonlinear_arith)
        requires
            w > 0,
            i1 >= 0,
    ;
    assert((i3 / w) * w <= i3) by (nonlinear_arith)
        requires
            w > 0,
            i3 >= 0,
    ;
}

/// The foreground count and box of a whole mask, read from its bytes in order
/// (the scan that closes `build_foreground_mask`): the number of nonzero bytes,
/// and the tight box of the nonzero pixels, `None` when there are none.
pub fn foreground_summary(data: &Vec<u8>, width: u32) -> (r: (u32, Option<BoundingBox>))
    requires
        width > 0,
        data@.len() <= u32::MAX,
    ensures
        r.0 == count_nonzero(data@, data@.len() as int),
        r.1 is None <==> !has_nonzero(data@, data@.len() as int),
        r.1 matches Some(b) ==> is_tight_box(data@, width as int, data@.len() as int, b),
        r.0 > 0 <==> r.1 is Some,
        r.1 matches Some(b) ==> b.x0 < b.x1 <= width && b.y0 < b.y1 && (b.y1 - 1) * width < data@.len(),
{
    let w = width as usize;
    let mut count: u32 = 0;
    let mut bbox: Option<BoundingBox> = None;
    let ghost mut wx0: int = 0;
    let ghost mut wx1: int = 0;
    let ghost mut wy0: int = 0;
    let ghost mut wy1: int = 0;
    let mut i: usize = 0;
    while i < data.len()
        invariant
            w == width as usize,
            w > 0,
            i <= data@.len(),
            data@.len() <= u32::MAX,
            count == count_nonzero(data@, i as int),
            bbox is None <==> !has_nonzero(data@, i as int),
            bbox matches Some(b) ==> {
                &&& forall|k: int|
                    0 <= k < i && #[trigger] data@[k] > 0 ==> b.x0 <= k % (w as int) < b.x1 && b.y0
                        <= k / (w as int) < b.y1
                &&& 0 <= wx0 < i && data@[wx0] > 0 && wx0 % (w as int) == b.x0
                &&& 0 <= wx1 < i && data@[wx1] > 0 && wx1 % (w as int) + 1 == b.x1
                &&& 0 <= wy0 < i && data@[wy0] > 0 && wy0 / (w as int) == b.y0
                &&& 0 <= wy1 < i && data@[wy1] > 0 && wy1 / (w as int) + 1 == b.y1
            },
        decreases data@.len() - i,
    {
        proof {
            lemma_count_bound(data@, i as int);
        }
        if data[i] > 0 {
            count = count + 1;
            let x = i % w;
            let y = i / w;
            assert(y <= i) by (nonlinear_arith)
                requires
                    y == i / w,
                    w > 0,
            ;
            let xs = x as u32;
            let ys = y as u32;
            assert(x < w);
            bbox = Some(
                match bbox {
                    None => {
                        proof {
                            wx0 = i as int;
                            wx1 = i as int;
                            wy0 = i as int;
                            wy1 = i as int;
                        }
                        BoundingBox { x0: xs, y0: ys, x1: xs + 1, y1: ys + 1 }
                    },
                    Some(current) => {
                        let mut next = current;
                        if xs < next.x0 {
                            next.x0 = xs;
                            proof {
                                wx0 = i as int;
                            }
                        }
                        if ys < next.y0 {
                            next.y0 = ys;
                            proof {
                                wy0 = i as int;
                            }
                        }
                        if xs + 1 > next.x1 {
                            next.x1 = xs + 1;
                            proof {
                                wx1 = i as int;
                            }
                        }
                        if ys + 1 > next.y1 {
                            next.y1 = ys + 1;
                            proof {
                                wy1 = i as int;
                            }
                        }
                        next
                    },
                },
            );
        }
        i = i + 1;
    }
    proof {
        if let Some(b) = bbox {
            assert(data@[wx0] > 0);
            assert(data@[wx1] > 0);
            assert(data@[wy0] > 0);
            assert(data@[wy1] > 0);
            lemma_tight_box_bounds(data@, width as int, data@.len() as int, b);
        }
        lemma_count_positive(data@, data@.len() as int);
    }
    (count, bbox)
}

// ---------------------------------------------------------------------------
// Column bands
// ---------------------------------------------------------------------------

/// The first column of the band `[x_start, x_end)` after clamping to the mask.
pub open spec fn band_start(width: int, x_start: int) -> int {
    if x_start < width - 1 {
        x_start
    } else {
        width - 1
    }
}

/// The end of the band after clamping: at most the width, at least one column.
pub open spec fn band_end(width: int, x_start: int, x_end: int) -> int {
    let e = if x_end < width {
        x_end
    } else {
        width
    };
    if e < band_start(width, x_start) + 1 {
        band_start(width, x_start) + 1
    } else {
        e
    }
}

/// A foreground pixel of the band `[s, e)`.
pub open spec fn band_fg(m: &GrayMask, s: int, e: int, x: int, y: int) -> bool {
    s <= x < e && m.is_fg(x, y)
}

/// `b` is the smallest box holding the foreground of the band `[s, e)`.
pub open spec fn is_tight_band_box(m: &GrayMask, s: int, e: int, b: BoundingBox) -> bool {
    &&& forall|x: int, y: int|
        #[trigger] band_fg(m, s, e, x, y) ==> b.x0 <= x < b.x1 && b.y0 <= y < b.y1
    &&& exists|x: int, y: int| #[trigger] band_fg(m, s, e, x, y) && x == b.x0
    &&& exists|x: int, y: int| #[trigger] band_fg(m, s, e, x, y) && x + 1 == b.x1
    &&& exists|x: int, y: int| #[trigger] band_fg(m, s, e, x, y) && y == b.y0
    &&& exists|x: int, y: int| #[trigger] band_fg(m, s, e, x, y) && y + 1 == b.y1
}

/// What `compute_region_bbox` gives for the band `[x_start, x_end)`: the zero
/// box for an empty mask; the tight box of the band's foreground; or, with no
/// foreground there, the whole clamped band at full height.
pub open spec fn region_box_ok(m: &GrayMask, x_start: int, x_end: int, b: BoundingBox) -> bool {
    if m.width == 0 || m.height == 0 {
        b == BoundingBox { x0: 0, y0: 0, x1: 0, y1: 0 }
    } else {
        let s = band_start(m.width as int, x_start);
        let e = band_end(m.width as int, x_start, x_end);
        if exists|x: int, y: int| #[trigger] band_fg(m, s, e, x, y) {
            is_tight_band_box(m, s, e, b)
        } else {
            b.x0 == s && b.y0 == 0 && b.x1 == e && b.y1 == m.height
        }
    }
}

proof fn lemma_row_index(y: int, w: int, h: int, x: int)
    requires
        0 <= y < h,
        0 <= x < w,
    ensures
        y * w + x < h * w,
        y * w + x >= 0,
        (y + 1) * w == y * w + w,
        (y + 1) * w <= h * w,
        h * w == w * h,
{
    assert(y * w + x < h * w) by (nonlinear_arith)
        requires
            0 <= y < h,
            0 <= x < w,
    ;
    assert(y * w >= 0) by (nonlinear_arith)
        requires
            0 <= y,
            0 <= w,
    ;
    assert((y + 1) * w == y * w + w) by (nonlinear_arith);
    assert((y + 1) * w <= h * w) by (nonlinear_arith)
        requires
            0 <= y < h,
            0 <= x < w,
    ;
    assert(h * w == w * h) by (nonlinear_arith);
}

/// The foreground box of the columns `[x_start, x_end)` of a mask; see
/// [`region_box_ok`].
pub fn compute_region_bbox(mask: &GrayMask, x_start: u32, x_end: u32) -> (r: RegionBounds)
    requires
        mask.wf(),
    ensures
        region_box_ok(mask, x_start as int, x_end as int, r.bbox),
{
    let width = mask.width;
    let height = mask.height;
    if width == 0 || height == 0 {
        return RegionBounds { bbox: BoundingBox { x0: 0, y0: 0, x1: 0, y1: 0 } };
    }
    let clamped_start = if x_start < width - 1 {
        x_start
    } else {
        width - 1
    };
    let clamped_end = if x_end < width {
        x_end
    } else {
        width
    };
    let effective_end = if clamped_end < clamped_start + 1 {
        clamped_start + 1
    } else {
        clamped_end
    };
    let ghost s = clamped_start as int;
    let ghost e = effective_end as int;
    let w = width as usize;
    let n = mask.data.len();
    let mut bounds: Option<BoundingBox> = None;
    let ghost mut wx0: (int, int) = (0, 0);
    let ghost mut wx1: (int, int) = (0, 0);
    let ghost mut wy0: (int, int) = (0, 0);
    let ghost mut wy1: (int, int) = (0, 0);
    let mut row: usize = 0;
    let mut y: u32 = 0;
    while y < height
        invariant
            mask.wf(),
            width == mask.width,
            height == mask.height,
            w == width as usize,
            n == mask.data@.len(),
            width > 0,
            s == clamped_start,
            e == effective_end,
            clamped_start < effective_end <= width,
            y <= height,
            row == y as int * w as int,
            bounds is None <==> !exists|px: int, py: int| py < y && #[trigger] band_fg(mask, s, e, px, py),
            bounds matches Some(b) ==> {
                &&& forall|px: int, py: int|
                    py < y && #[trigger] band_fg(mask, s, e, px, py) ==> b.x0 <= px < b.x1 && b.y0
                        <= py < b.y1
                &&& band_fg(mask, s, e, wx0.0, wx0.1) && wx0.0 == b.x0
                &&& band_fg(mask, s, e, wx1.0, wx1.1) && wx1.0 + 1 == b.x1
                &&& band_fg(mask, s, e, wy0.0, wy0.1) && wy0.1 == b.y0
                &&& band_fg(mask, s, e, wy1.0, wy1.1) && wy1.1 + 1 == b.y1
            },
        decreases height - y,
    {
        let mut x: u32 = clamped_start;
        while x < effective_end
            invariant
                mask.wf(),
                width == mask.width,
                height == mask.height,
                w == width as usize,
                n == mask.data@.len(),
                width > 0,
                s == clamped_start,
                e == effective_end,
                clamped_start < effective_end <= width,
                y < height,
                clamped_start <= x <= effective_end,
                row == y as int * w as int,
                bounds is None <==> !exists|px: int, py: int|
                    (py < y || (py == y && px < x)) && #[trigger] band_fg(mask, s, e, px, py),
                bounds matches Some(b) ==> {
                    &&& forall|px: int, py: int|
                        (py < y || (py == y && px < x)) && #[trigger] band_fg(mask, s, e, px, py)
                            ==> b.x0 <= px < b.x1 && b.y0 <= py < b.y1
                    &&& band_fg(mask, s, e, wx0.0, wx0.1) && wx0.0 == b.x0
                    &&& band_fg(mask, s, e, wx1.0, wx1.1) && wx1.0 + 1 == b.x1
                    &&& band_fg(mask, s, e, wy0.0, wy0.1) && wy0.1 == b.y0
                    &&& band_fg(mask, s, e, wy1.0, wy1.1) && wy1.1 + 1 == b.y1
                },
            decreases effective_end - x,
        {
            proof {
                lemma_row_index(y as int, width as int, height as int, x as int);
            }
            let value = mask.data[row + x as usize];
            if value > 0 {
                assert(band_fg(mask, s, e, x as int, y as int));
                bounds = Some(
                    match bounds {
                        None => {
                            proof {
                                wx0 = (x as int, y as int);
                                wx1 = (x as int, y as int);
                                wy0 = (x as int, y as int);
                                wy1 = (x as int, y as int);
                            }
                            BoundingBox { x0: x, y0: y, x1: x + 1, y1: y + 1 }
                        },
                        Some(current) => {
                            let mut next = current;
                            if x < next.x0 {
                                next.x0 = x;
                                proof {
                                    wx0 = (x as int, y as int);
                                }
                            }
                            if y < next.y0 {
                                next.y0 = y;
                                proof {
                                    wy0 = (x as int, y as int);
                                }
                            }
                            if x + 1 > next.x1 {
                                next.x1 = x + 1;
                                proof {
                                    wx1 = (x as int, y as int);
                                }
                            }
                            if y + 1 > next.y1 {
                                next.y1 = y + 1;
                                proof {
                                    wy1 = (x as int, y as int);
                                }
                            }
                            next
                        },
                    },
                );
            } else {
                assert(!band_fg(mask, s, e, x as int, y as int));
            }
            x = x + 1;
        }
        proof {
            lemma_row_index(y as int, width as int, height as int, 0);
            assert forall|px: int, py: int|
                #[trigger] band_fg(mask, s, e, px, py) && py == y implies px < x by {}
        }
        row = row + w;
        y = y + 1;
    }
    proof {
        assert forall|px: int, py: int| #[trigger] band_fg(mask, s, e, px, py) implies py < y by {}
        assert(s == band_start(width as int, x_start as int));
        assert(e == band_end(width as int, x_start as int, x_end as int));
        match bounds {
            Some(b) => {
                assert(band_fg(mask, s, e, wx0.0, wx0.1));
                assert(band_fg(mask, s, e, wx1.0, wx1.1));
                assert(band_fg(mask, s, e, wy0.0, wy0.1));
                assert(band_fg(mask, s, e, wy1.0, wy1.1));
                assert(is_tight_band_box(mask, s, e, b));
            },
            None => {
                assert(!exists|px: int, py: int| #[trigger] band_fg(mask, s, e, px, py));
            },
        }
    }
    let bbox = match bounds {
        Some(b) => b,
        None => BoundingBox { x0: clamped_start, y0: 0, x1: effective_end, y1: height },
    };
    RegionBounds { bbox }
}

// ---------------------------------------------------------------------------
// Padded crops
// ---------------------------------------------------------------------------

/// A crop rectangle: top-left corner and size.
#[derive(Debug, Clone, Copy, PartialEq, Eq)]
pub struct CropRect {
    pub x: u32,
    pub y: u32,
    pub width: u32,
    pub height: u32,
}

/// `a - b`, or 0 when `b > a`.
pub open spec fn sat_sub(a: int, b: int) -> int {
    if a >= b {
        a - b
    } else {
        0
    }
}

/// The smaller of two integers.
pub open spec fn min_int(a: int, b: int) -> int {
    if a <= b {
        a
    } else {
        b
    }
}

/// The rectangle that `crop_region_with_padding` cuts from an image of size
/// `width x height`: the box grown by the padding on each side and clipped to
/// the image, or the whole image when nothing is left after clipping.
pub open spec fn padded_crop(width: int, height: int, b: BoundingBox, px: int, py: int) -> CropRect {
    let x0 = min_int(sat_sub(b.x0 as int, px), sat_sub(width, 1));
    let y0 = min_int(sat_sub(b.y0 as int, py), sat_sub(height, 1));
    let x1 = min_int(b.x1 + px, width);
    let y1 = min_int(b.y1 + py, height);
    if x1 <= x0 || y1 <= y0 {
        CropRect { x: 0, y: 0, width: width as u32, height: height as u32 }
    } else {
        CropRect { x: x0 as u32, y: y0 as u32, width: (x1 - x0) as u32, height: (y1 - y0) as u32 }
    }
}

/// The crop of an image of size `width x height` around `bounds` with the
/// given padding (`crop_region_with_padding`, which then cuts this rectangle);
/// see [`padded_crop`]. The rectangle always lies inside the image.
pub fn crop_region_with_padding(
    width: u32,
    height: u32,
    bounds: &RegionBounds,
    padding_x: u32,
    padding_y: u32,
) -> (r: CropRect)
    requires
        bounds.bbox.x1 + padding_x <= u32::MAX,
        bounds.bbox.y1 + padding_y <= u32::MAX,
    ensures
        r == padded_crop(width as int, height as int, bounds.bbox, padding_x as int, padding_y as int),
        r.x + r.width <= width,
        r.y + r.height <= height,
{
    let bbox = bounds.bbox;
    let x0 = bbox.x0.saturating_sub(padding_x).min(width.saturating_sub(1));
    let y0 = bbox.y0.saturating_sub(padding_y).min(height.saturating_sub(1));
    let x1 = (bbox.x1 + padding_x).min(width);
    let y1 = (bbox.y1 + padding_y).min(height);
    if x1 <= x0 || y1 <= y0 {
        return CropRect { x: 0, y: 0, width, height };
    }
    CropRect { x: x0, y: y0, width: x1 - x0, height: y1 - y0 }
}

} // verus!
