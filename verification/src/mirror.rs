//! The mirror plugin: flips an RGBA8 image left to right and/or top to bottom.
use vstd::prelude::*;
use crate::plugin_error::{error_code, PluginError};
use crate::pixels::{
    image_len, in_image, lemma_empty_image, lemma_equal_by_pixels, lemma_pixel_coords, lemma_row_before, lemma_row_inside,
    pixel_index, row_bytes, row_of, column_of, channel_of, data_size, rgba_data_size,
};

verus! {

/// The image with every row reversed: pixel (`x`, `y`) of the result is pixel
/// (`width - 1 - x`, `y`) of `s`.
pub open spec fn mirrored_horizontally(s: Seq<u8>, width: int) -> Seq<u8> {
    Seq::new(
        s.len(),
        |i: int|
            s[pixel_index(width, width - 1 - column_of(width, i), row_of(width, i), channel_of(width, i))],
    )
}

/// The image with its rows in reverse order: pixel (`x`, `y`) of the result is
/// pixel (`x`, `height - 1 - y`) of `s`.
pub open spec fn mirrored_vertically(s: Seq<u8>, width: int, height: int) -> Seq<u8> {
    Seq::new(
        s.len(),
        |i: int|
            s[pixel_index(width, column_of(width, i), height - 1 - row_of(width, i), channel_of(width, i))],
    )
}

/// Reading one pixel of [`mirrored_horizontally`].
pub proof fn lemma_mirrored_horizontally_at(
    s: Seq<u8>,
    width: int,
    height: int,
    x: int,
    y: int,
    c: int,
)
    requires
        s.len() == image_len(width, height),
        in_image(width, height, x, y, c),
    ensures
        mirrored_horizontally(s, width)[pixel_index(width, x, y, c)] == s[pixel_index(
            width,
            width - 1 - x,
            y,
            c,
        )],
{
    lemma_pixel_coords(width, x, y, c);
    lemma_row_inside(width, height, y);
}

/// Reading one pixel of [`mirrored_vertically`].
pub proof fn lemma_mirrored_vertically_at(
    s: Seq<u8>,
    width: int,
    height: int,
    x: int,
    y: int,
    c: int,
)
    requires
        s.len() == image_len(width, height),
        in_image(width, height, x, y, c),
    ensures
        mirrored_vertically(s, width, height)[pixel_index(width, x, y, c)] == s[pixel_index(
            width,
            x,
            height - 1 - y,
            c,
        )],
{
    lemma_pixel_coords(width, x, y, c);
    lemma_row_inside(width, height, y);
}

/// Exchanges the four bytes at `a` with the four bytes at `b`.
fn swap_pixels(buf: &mut [u8], a: usize, b: usize)
    requires
        a + 4 <= b,
        b + 4 <= old(buf)@.len(),
    ensures
        final(buf)@.len() == old(buf)@.len(),
        forall|k: int| 0 <= k < 4 ==> #[trigger] final(buf)@[a + k] == old(buf)@[b + k],
        forall|k: int| 0 <= k < 4 ==> #[trigger] final(buf)@[b + k] == old(buf)@[a + k],
        forall|i: int|
            0 <= i < old(buf)@.len() && !(a <= i < a + 4) && !(b <= i < b + 4) ==> #[trigger] final(buf)@[i] == old(buf)@[i],
{
    let mut k: usize = 0;
    while k < 4
        invariant
            a + 4 <= b,
            b + 4 <= old(buf)@.len(),
            0 <= k <= 4,
            buf@.len() == old(buf)@.len(),
            forall|j: int| 0 <= j < k ==> #[trigger] buf@[a + j] == old(buf)@[b + j],
            forall|j: int| 0 <= j < k ==> #[trigger] buf@[b + j] == old(buf)@[a + j],
            forall|i: int|
                0 <= i < old(buf)@.len() && !(a <= i < a + k) && !(b <= i < b + k)
                    ==> #[trigger] buf@[i] == old(buf)@[i],
        decreases 4 - k,
    {
        let t = buf[a + k];
        buf[a + k] = buf[b + k];
        buf[b + k] = t;
        k = k + 1;
    }
}

/// Reverses every row of a `width` by `height` RGBA8 image in place.
///
/// An image without columns has nothing to reverse and is left as it is.
pub fn mirror_horizontal(buf: &mut [u8], width: usize, height: usize)
    requires
        4 * width <= usize::MAX,
        old(buf)@.len() == image_len(width as int, height as int),
    ensures
        final(buf)@ == mirrored_horizontally(old(buf)@, width as int),
{
    if width == 0 {
        proof {
            let n = buf@.len();
            assert(n == 0) by (nonlinear_arith)
                requires
                    n == height * (4 * width),
                    width == 0,
            ;
            assert(buf@ =~= mirrored_horizontally(buf@, width as int));
        }
        return;
    }
    let stride = width * 4;
    let ghost orig = buf@;
    let ghost w = width as int;
    let ghost h = height as int;
    let len = buf.len();
    let mut y: usize = 0;
    let mut row_start: usize = 0;
    while y < height
        invariant
            w == width,
            h == height,
            0 < w,
            stride == row_bytes(w),
            0 <= y <= height,
            row_start == y * row_bytes(w),
            buf@.len() == orig.len(),
            orig.len() == len,
            orig.len() == image_len(w, h),
            forall|xx: int, yy: int, c: int|
                in_image(w, h, xx, yy, c) ==> #[trigger] buf@[pixel_index(w, xx, yy, c)] == if yy
                    < y {
                    orig[pixel_index(w, w - 1 - xx, yy, c)]
                } else {
                    orig[pixel_index(w, xx, yy, c)]
                },
        decreases height - y,
    {
        proof {
            lemma_row_inside(w, h, y as int);
        }
        let mut x: usize = 0;
        while x < width / 2
            invariant
                w == width,
                h == height,
                0 < w,
                stride == row_bytes(w),
                0 <= y < height,
                0 <= x <= width / 2,
                row_start == y * row_bytes(w),
                row_start + stride <= orig.len(),
                orig.len() == len,
                buf@.len() == orig.len(),
                orig.len() == image_len(w, h),
                forall|xx: int, yy: int, c: int|
                    in_image(w, h, xx, yy, c) ==> #[trigger] buf@[pixel_index(w, xx, yy, c)] == if yy
                        < y || (yy == y && (xx < x || xx > w - 1 - x)) {
                        orig[pixel_index(w, w - 1 - xx, yy, c)]
                    } else {
                        orig[pixel_index(w, xx, yy, c)]
                    },
            decreases width / 2 - x,
        {
            let a = row_start + x * 4;
            let b = row_start + (width - 1 - x) * 4;
            let ghost prev = buf@;
            swap_pixels(buf, a, b);
            proof {
                assert forall|xx: int, yy: int, c: int| in_image(w, h, xx, yy, c) implies #[trigger] buf@[pixel_index(w, xx, yy, c)]
                    == if yy < y || (yy == y && (xx < x + 1 || xx > w - 1 - (x + 1))) {
                    orig[pixel_index(w, w - 1 - xx, yy, c)]
                } else {
                    orig[pixel_index(w, xx, yy, c)]
                } by {
                    let q = pixel_index(w, xx, yy, c);
                    lemma_row_inside(w, h, yy);
                    if yy < y {
                        lemma_row_before(w, yy, y as int);
                        assert(buf@[q] == prev[q]);
                    } else if yy > y {
                        lemma_row_before(w, y as int, yy);
                        assert(buf@[q] == prev[q]);
                    } else if xx == x {
                        assert(q == a + c);
                        assert(buf@[a + c] == prev[b + c]);
                        assert(b + c == pixel_index(w, w - 1 - xx, yy, c));
                        assert(prev[pixel_index(w, w - 1 - xx, yy, c)] == orig[pixel_index(
                            w,
                            w - 1 - xx,
                            yy,
                            c,
                        )]);
                    } else if xx == w - 1 - x {
                        assert(q == b + c);
                        assert(buf@[b + c] == prev[a + c]);
                        assert(a + c == pixel_index(w, w - 1 - xx, yy, c));
                        assert(prev[pixel_index(w, w - 1 - xx, yy, c)] == orig[pixel_index(
                            w,
                            w - 1 - xx,
                            yy,
                            c,
                        )]);
                    } else {
                        assert(buf@[q] == prev[q]);
                    }
                }
            }
            x = x + 1;
        }
        proof {
            assert forall|xx: int, yy: int, c: int| in_image(w, h, xx, yy, c) && yy == y implies #[trigger] buf@[pixel_index(w, xx, yy, c)]
                == orig[pixel_index(w, w - 1 - xx, yy, c)] by {
                if !(xx < x || xx > w - 1 - x) {
                    assert(xx == w - 1 - xx);
                }
            }
        }
        proof {
            lemma_row_inside(w, h, y as int);
            assert((y + 1) * row_bytes(w) == y * row_bytes(w) + row_bytes(w)) by (nonlinear_arith);
        }
        row_start = row_start + stride;
        y = y + 1;
    }
    proof {
        let m = mirrored_horizontally(orig, w);
        assert forall|xx: int, yy: int, c: int| in_image(w, h, xx, yy, c) implies #[trigger] buf@[pixel_index(w, xx, yy, c)]
            == m[pixel_index(w, xx, yy, c)] by {
            lemma_mirrored_horizontally_at(orig, w, h, xx, yy, c);
        }
        lemma_equal_by_pixels(buf@, m, w, h);
    }
}


/// Reverses the order of the rows of a `width` by `height` RGBA8 image in
/// place.
///
/// The buffer size is computed in 32-bit arithmetic, which must not overflow.
pub fn mirror_vertical(buf: &mut [u8], width: u32, height: u32)
    requires
        4 * width <= u32::MAX,
        4 * width * height <= u32::MAX,
        old(buf)@.len() == image_len(width as int, height as int),
    ensures
        final(buf)@ == mirrored_vertically(old(buf)@, width as int, height as int),
{
    let ghost orig = buf@;
    let ghost w = width as int;
    let ghost h = height as int;
    if width == 0 || height == 0 {
        proof {
            assert(orig.len() == 0) by (nonlinear_arith)
                requires
                    orig.len() == h * (4 * w),
                    w == 0 || h == 0,
            ;
            assert(buf@ =~= mirrored_vertically(orig, w, h));
        }
        return;
    }
    let stride = width as usize * 4;
    let len = buf.len();
    let mut y: usize = 0;
    let mut top_start: usize = 0;
    proof {
        lemma_row_inside(w, h, h - 1);
        assert((h - 1) * row_bytes(w) == h * row_bytes(w) - row_bytes(w)) by (nonlinear_arith);
    }
    let mut bottom_start: usize = len - stride;
    while y < height as usize / 2
        invariant
            w == width,
            h == height,
            0 < w,
            0 < h,
            stride == row_bytes(w),
            0 <= y <= h / 2,
            top_start == y * row_bytes(w),
            bottom_start == (h - 1 - y) * row_bytes(w),
            buf@.len() == orig.len(),
            orig.len() == len,
            orig.len() == image_len(w, h),
            forall|xx: int, yy: int, c: int|
                in_image(w, h, xx, yy, c) ==> #[trigger] buf@[pixel_index(w, xx, yy, c)] == if yy
                    < y || yy > h - 1 - y {
                    orig[pixel_index(w, xx, h - 1 - yy, c)]
                } else {
                    orig[pixel_index(w, xx, yy, c)]
                },
        decreases h / 2 - y,
    {
        proof {
            lemma_row_inside(w, h, y as int);
            lemma_row_inside(w, h, h - 1 - y);
            lemma_row_before(w, y as int, h - 1 - y);
        }
        let mut i: usize = 0;
        while i < stride
            invariant
                w == width,
                h == height,
                0 < w,
                0 < h,
                stride == row_bytes(w),
                0 <= y < h / 2,
                0 <= i <= stride,
                top_start == y * row_bytes(w),
                bottom_start == (h - 1 - y) * row_bytes(w),
                top_start + stride <= bottom_start,
                bottom_start + stride <= orig.len(),
                buf@.len() == orig.len(),
                orig.len() == len,
                orig.len() == image_len(w, h),
                forall|xx: int, yy: int, c: int|
                    in_image(w, h, xx, yy, c) ==> #[trigger] buf@[pixel_index(w, xx, yy, c)] == if yy
                        < y || yy > h - 1 - y || ((yy == y || yy == h - 1 - y) && 4 * xx + c < i) {
                        orig[pixel_index(w, xx, h - 1 - yy, c)]
                    } else {
                        orig[pixel_index(w, xx, yy, c)]
                    },
            decreases stride - i,
        {
            let p = top_start + i;
            let q = bottom_start + i;
            let ghost prev = buf@;
            let t = buf[p];
            buf[p] = buf[q];
            buf[q] = t;
            proof {
                assert forall|xx: int, yy: int, c: int| in_image(w, h, xx, yy, c) implies #[trigger] buf@[pixel_index(w, xx, yy, c)]
                    == if yy < y || yy > h - 1 - y || ((yy == y || yy == h - 1 - y) && 4 * xx + c
                    < i + 1) {
                    orig[pixel_index(w, xx, h - 1 - yy, c)]
                } else {
                    orig[pixel_index(w, xx, yy, c)]
                } by {
                    let r = pixel_index(w, xx, yy, c);
                    lemma_row_inside(w, h, yy);
                    if yy < y {
                        lemma_row_before(w, yy, y as int);
                        assert(buf@[r] == prev[r]);
                    } else if yy > h - 1 - y {
                        lemma_row_before(w, h - 1 - y, yy);
                        assert(buf@[r] == prev[r]);
                    } else if yy == y {
                        if 4 * xx + c == i {
                            assert(r == p);
                            assert(q == pixel_index(w, xx, h - 1 - yy, c));
                            assert(prev[pixel_index(w, xx, h - 1 - yy, c)] == orig[pixel_index(
                                w,
                                xx,
                                h - 1 - yy,
                                c,
                            )]);
                        } else {
                            assert(buf@[r] == prev[r]);
                        }
                    } else if yy == h - 1 - y {
                        if 4 * xx + c == i {
                            assert(r == q);
                            assert(p == pixel_index(w, xx, h - 1 - yy, c));
                            assert(prev[pixel_index(w, xx, h - 1 - yy, c)] == orig[pixel_index(
                                w,
                                xx,
                                h - 1 - yy,
                                c,
                            )]);
                        } else {
                            assert(buf@[r] == prev[r]);
                        }
                    } else {
                        lemma_row_before(w, y as int, yy);
                        lemma_row_before(w, yy, h - 1 - y);
                        assert(buf@[r] == prev[r]);
                    }
                }
            }
            i = i + 1;
        }
        proof {
            lemma_row_inside(w, h, y as int);
            lemma_row_inside(w, h, h - 1 - y);
            assert((y + 1) * row_bytes(w) == y * row_bytes(w) + row_bytes(w)) by (nonlinear_arith);
            assert((h - 1 - (y + 1)) * row_bytes(w) == (h - 1 - y) * row_bytes(w) - row_bytes(w))
                by (nonlinear_arith);
        }
        top_start = top_start + stride;
        bottom_start = bottom_start - stride;
        y = y + 1;
    }
    proof {
        let m = mirrored_vertically(orig, w, h);
        assert forall|xx: int, yy: int, c: int| in_image(w, h, xx, yy, c) implies #[trigger] buf@[pixel_index(w, xx, yy, c)]
            == m[pixel_index(w, xx, yy, c)] by {
            lemma_mirrored_vertically_at(orig, w, h, xx, yy, c);
            if !(yy < y || yy > h - 1 - y) {
                assert(yy == h - 1 - yy);
            }
        }
        lemma_equal_by_pixels(buf@, m, w, h);
    }
}

/// Mirroring an image horizontally twice gives back the image.
pub proof fn lemma_mirror_horizontal_twice(s: Seq<u8>, width: int, height: int)
    requires
        0 <= width,
        0 <= height,
        s.len() == image_len(width, height),
    ensures
        mirrored_horizontally(mirrored_horizontally(s, width), width) == s,
{
    let m = mirrored_horizontally(s, width);
    let mm = mirrored_horizontally(m, width);
    if width == 0 {
        lemma_empty_image(s, width, height);
        assert(mm =~= s);
        return;
    }
    assert forall|x: int, y: int, c: int| in_image(width, height, x, y, c) implies #[trigger] mm[pixel_index(width, x, y, c)]
        == s[pixel_index(width, x, y, c)] by {
        lemma_mirrored_horizontally_at(m, width, height, x, y, c);
        lemma_mirrored_horizontally_at(s, width, height, width - 1 - x, y, c);
    }
    lemma_equal_by_pixels(mm, s, width, height);
}

/// Mirroring an image vertically twice gives back the image.
pub proof fn lemma_mirror_vertical_twice(s: Seq<u8>, width: int, height: int)
    requires
        0 <= width,
        0 <= height,
        s.len() == image_len(width, height),
    ensures
        mirrored_vertically(mirrored_vertically(s, width, height), width, height) == s,
{
    let m = mirrored_vertically(s, width, height);
    let mm = mirrored_vertically(m, width, height);
    if width == 0 {
        lemma_empty_image(s, width, height);
        assert(mm =~= s);
    } else {
        assert forall|x: int, y: int, c: int| in_image(width, height, x, y, c) implies #[trigger] mm[pixel_index(width, x, y, c)]
            == s[pixel_index(width, x, y, c)] by {
            lemma_mirrored_vertically_at(m, width, height, x, y, c);
            lemma_mirrored_vertically_at(s, width, height, x, height - 1 - y, c);
        }
        lemma_equal_by_pixels(mm, s, width, height);
    }
}

/// Mirroring horizontally and mirroring vertically give the same image in
/// either order.
pub proof fn lemma_mirrors_commute(s: Seq<u8>, width: int, height: int)
    requires
        0 <= width,
        0 <= height,
        s.len() == image_len(width, height),
    ensures
        mirrored_vertically(mirrored_horizontally(s, width), width, height)
            == mirrored_horizontally(mirrored_vertically(s, width, height), width),
{
    let hv = mirrored_vertically(mirrored_horizontally(s, width), width, height);
    let vh = mirrored_horizontally(mirrored_vertically(s, width, height), width);
    if width == 0 {
        lemma_empty_image(s, width, height);
        assert(hv =~= vh);
        return;
    }
    assert forall|x: int, y: int, c: int| in_image(width, height, x, y, c) implies #[trigger] hv[pixel_index(width, x, y, c)]
        == vh[pixel_index(width, x, y, c)] by {
        lemma_mirrored_vertically_at(mirrored_horizontally(s, width), width, height, x, y, c);
        lemma_mirrored_horizontally_at(s, width, height, x, height - 1 - y, c);
        lemma_mirrored_horizontally_at(mirrored_vertically(s, width, height), width, height, x, y, c);
        lemma_mirrored_vertically_at(s, width, height, width - 1 - x, y, c);
    }
    lemma_equal_by_pixels(hv, vh, width, height);
}

/// Parameters of the mirror plugin: which of the two flips to apply.
#[derive(Debug, Copy, Clone, PartialEq, Eq, Structural)]
pub struct MirrorParams {
    /// Reverse every row (left to right).
    pub horizontal: bool,
    /// Reverse the order of the rows (top to bottom).
    pub vertical: bool,
}

/// The image after the flips that `params` asks for, horizontal first.
pub open spec fn mirrored(s: Seq<u8>, width: int, height: int, params: MirrorParams) -> Seq<u8> {
    let s1 = if params.horizontal {
        mirrored_horizontally(s, width)
    } else {
        s
    };
    if params.vertical {
        mirrored_vertically(s1, width, height)
    } else {
        s1
    }
}

/// Column of the input pixel that lands in column `x` under `params`.
pub open spec fn source_column(width: int, x: int, params: MirrorParams) -> int {
    if params.horizontal {
        width - 1 - x
    } else {
        x
    }
}

/// Row of the input pixel that lands in row `y` under `params`.
pub open spec fn source_row(height: int, y: int, params: MirrorParams) -> int {
    if params.vertical {
        height - 1 - y
    } else {
        y
    }
}

/// The flips move whole pixels: pixel (`x`, `y`) of the result is, with all
/// four channels, the input pixel (`source_column`, `source_row`), which lies
/// inside the image; the image keeps its size.
pub proof fn lemma_mirrored_moves_pixels(s: Seq<u8>, width: int, height: int, params: MirrorParams)
    requires
        s.len() == image_len(width, height),
    ensures
        mirrored(s, width, height, params).len() == s.len(),
        forall|x: int, y: int, c: int|
            in_image(width, height, x, y, c) ==> {
                &&& in_image(
                    width,
                    height,
                    source_column(width, x, params),
                    source_row(height, y, params),
                    c,
                )
                &&& #[trigger] mirrored(s, width, height, params)[pixel_index(width, x, y, c)]
                    == s[pixel_index(
                    width,
                    source_column(width, x, params),
                    source_row(height, y, params),
                    c,
                )]
            },
{
    let s1 = if params.horizontal {
        mirrored_horizontally(s, width)
    } else {
        s
    };
    assert forall|x: int, y: int, c: int| in_image(width, height, x, y, c) implies #[trigger] mirrored(
        s,
        width,
        height,
        params,
    )[pixel_index(width, x, y, c)] == s[pixel_index(
        width,
        source_column(width, x, params),
        source_row(height, y, params),
        c,
    )] by {
        let y1 = source_row(height, y, params);
        if params.vertical {
            lemma_mirrored_vertically_at(s1, width, height, x, y, c);
        }
        if params.horizontal {
            lemma_mirrored_horizontally_at(s, width, height, x, y1, c);
        }
    }
}

/// The mirror plugin's entry point: flips the `width` by `height` RGBA8 image
/// at the front of `rgba_data` as `params` asks, and returns the status code.
///
/// `params` is `None` when the parameters could not be read. A size that
/// does not fit in memory is reported before the parameters are looked at.
/// Bytes after the image are left as they are.
pub fn process_image(
    width: u32,
    height: u32,
    rgba_data: &mut Vec<u8>,
    params: Option<MirrorParams>,
) -> (code: i32)
    requires
        data_size(width, height) <= usize::MAX ==> old(rgba_data)@.len() >= data_size(
            width,
            height,
        ),
        data_size(width, height) <= usize::MAX && params is Some && params->0.horizontal
            ==> 4 * width <= usize::MAX,
        data_size(width, height) <= usize::MAX && params is Some && params->0.vertical
            ==> 4 * width <= u32::MAX && 4 * width * height <= u32::MAX,
    ensures
        data_size(width, height) > usize::MAX ==> code == error_code(PluginError::InvalidSize)
            && final(rgba_data)@ == old(rgba_data)@,
        data_size(width, height) <= usize::MAX && params is None ==> code == error_code(
            PluginError::InvalidParams,
        ) && final(rgba_data)@ == old(rgba_data)@,
        data_size(width, height) <= usize::MAX && params is Some ==> code == error_code(
            PluginError::Success,
        ) && final(rgba_data)@ == mirrored(
            old(rgba_data)@.take(data_size(width, height)),
            width as int,
            height as int,
            params->0,
        ) + old(rgba_data)@.skip(data_size(width, height)),
{
    let w = width as usize;
    let h = height as usize;
    let size = match rgba_data_size(width, height) {
        Some(n) => n,
        None => {
            return PluginError::InvalidSize.code();
        },
    };
    let params = match params {
        Some(p) => p,
        None => {
            return PluginError::InvalidParams.code();
        },
    };
    let ghost orig = rgba_data@;
    proof {
        assert(image_len(w as int, h as int) == size) by (nonlinear_arith)
            requires
                size == width * height * 4,
                w == width,
                h == height,
        ;
    }
    let mut rest = rgba_data.split_off(size);
    let ghost front = rgba_data@;
    if params.horizontal {
        mirror_horizontal(rgba_data.as_mut_slice(), w, h);
    }
    if params.vertical {
        mirror_vertical(rgba_data.as_mut_slice(), width, height);
    }
    assert(rgba_data@ == mirrored(front, width as int, height as int, params));
    rgba_data.append(&mut rest);
    assert(orig.take(size as int) == front);
    PluginError::Success.code()
}

} // verus!
