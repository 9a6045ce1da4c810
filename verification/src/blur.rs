//! The blur plugin: a separable box blur of an RGBA8 image.
//!
//! A box blur of radius `r` replaces every byte by the mean of the `2 * r + 1`
//! bytes of the same channel centred on it along its row, then does the same
//! along each column; that is one pass, and a blur makes a given number of
//! passes. Taps that fall outside the image repeat the nearest edge pixel.
//! Means are rounded to the nearest integer: the kernel size is odd, so no sum
//! lies halfway between two results, and `(sum + r) / (2 * r + 1)` is that
//! rounding.
use vstd::prelude::*;
use crate::plugin_error::{error_code, PluginError};
use crate::mirror::{
    lemma_mirrored_horizontally_at, lemma_mirrored_vertically_at, mirrored_horizontally,
    mirrored_vertically,
};
use crate::pixels::{
    image_len, in_image, lemma_empty_image, lemma_equal_by_pixels, lemma_transposed_at,
    lemma_transposed_len, transposed, lemma_pixel_coords, lemma_row_inside,
    pixel_index, row_bytes, row_of, column_of, channel_of, data_size, rgba_data_size,
};

verus! {

/// Radius of the box kernel that [`blur_box`] uses.
pub const BOX_BLUR_RADIUS: u32 = 9;

/// Number of passes that [`blur_box`] makes.
pub const BOX_BLUR_ITERATIONS: u32 = 3;

/// Number of taps of a box kernel of radius `radius`.
pub open spec fn kernel_size(radius: int) -> int {
    2 * radius + 1
}

/// `v` limited to the range `lo ..= hi`.
pub open spec fn clamp(v: int, lo: int, hi: int) -> int {
    if v < lo {
        lo
    } else if v > hi {
        hi
    } else {
        v
    }
}

/// The `n`-th tap of the row kernel of radius `radius` around byte (`x`, `y`, `c`).
pub open spec fn row_tap(s: Seq<u8>, width: int, radius: int, x: int, y: int, c: int, n: int) -> int {
    s[pixel_index(width, clamp(x + n - radius, 0, width - 1), y, c)] as int
}

/// The `n`-th tap of the column kernel of radius `radius` around byte (`x`, `y`, `c`).
pub open spec fn column_tap(
    s: Seq<u8>,
    width: int,
    height: int,
    radius: int,
    x: int,
    y: int,
    c: int,
    n: int,
) -> int {
    s[pixel_index(width, x, clamp(y + n - radius, 0, height - 1), c)] as int
}

/// Sum of the first `n` taps of the row kernel around byte (`x`, `y`, `c`).
pub open spec fn row_window_sum(
    s: Seq<u8>,
    width: int,
    radius: int,
    x: int,
    y: int,
    c: int,
    n: nat,
) -> int
    decreases n,
{
    if n == 0 {
        0
    } else {
        row_window_sum(s, width, radius, x, y, c, (n - 1) as nat) + row_tap(
            s,
            width,
            radius,
            x,
            y,
            c,
            n - 1,
        )
    }
}

/// Sum of the first `n` taps of the column kernel around byte (`x`, `y`, `c`).
pub open spec fn column_window_sum(
    s: Seq<u8>,
    width: int,
    height: int,
    radius: int,
    x: int,
    y: int,
    c: int,
    n: nat,
) -> int
    decreases n,
{
    if n == 0 {
        0
    } else {
        column_window_sum(s, width, height, radius, x, y, c, (n - 1) as nat) + column_tap(
            s,
            width,
            height,
            radius,
            x,
            y,
            c,
            n - 1,
        )
    }
}

/// A kernel sum divided by the kernel size, rounded to the nearest integer.
pub open spec fn rounded_mean(sum: int, radius: int) -> u8 {
    ((sum + radius) / kernel_size(radius)) as u8
}

/// The image with every byte replaced by the mean of its row window.
pub open spec fn blurred_rows(s: Seq<u8>, width: int, radius: int) -> Seq<u8> {
    Seq::new(
        s.len(),
        |i: int|
            rounded_mean(
                row_window_sum(
                    s,
                    width,
                    radius,
                    column_of(width, i),
                    row_of(width, i),
                    channel_of(width, i),
                    kernel_size(radius) as nat,
                ),
                radius,
            ),
    )
}

/// The image with every byte replaced by the mean of its column window.
pub open spec fn blurred_columns(s: Seq<u8>, width: int, height: int, radius: int) -> Seq<u8> {
    Seq::new(
        s.len(),
        |i: int|
            rounded_mean(
                column_window_sum(
                    s,
                    width,
                    height,
                    radius,
                    column_of(width, i),
                    row_of(width, i),
                    channel_of(width, i),
                    kernel_size(radius) as nat,
                ),
                radius,
            ),
    )
}

/// One pass of the box blur: rows first, then columns.
pub open spec fn box_blur_pass(s: Seq<u8>, width: int, height: int, radius: int) -> Seq<u8> {
    blurred_columns(blurred_rows(s, width, radius), width, height, radius)
}

/// The image after `n` passes of the box blur of radius `radius`.
pub open spec fn box_blurred(s: Seq<u8>, width: int, height: int, radius: int, n: nat) -> Seq<u8>
    decreases n,
{
    if n == 0 {
        s
    } else {
        box_blur_pass(box_blurred(s, width, height, radius, (n - 1) as nat), width, height, radius)
    }
}

/// Reading one byte of [`blurred_rows`].
pub proof fn lemma_blurred_rows_at(
    s: Seq<u8>,
    width: int,
    height: int,
    radius: int,
    x: int,
    y: int,
    c: int,
)
    requires
        s.len() == image_len(width, height),
        in_image(width, height, x, y, c),
    ensures
        blurred_rows(s, width, radius)[pixel_index(width, x, y, c)] == rounded_mean(
            row_window_sum(s, width, radius, x, y, c, kernel_size(radius) as nat),
            radius,
        ),
{
    lemma_pixel_coords(width, x, y, c);
    lemma_row_inside(width, height, y);
}

/// Reading one byte of [`blurred_columns`].
pub proof fn lemma_blurred_columns_at(
    s: Seq<u8>,
    width: int,
    height: int,
    radius: int,
    x: int,
    y: int,
    c: int,
)
    requires
        s.len() == image_len(width, height),
        in_image(width, height, x, y, c),
    ensures
        blurred_columns(s, width, height, radius)[pixel_index(width, x, y, c)] == rounded_mean(
            column_window_sum(s, width, height, radius, x, y, c, kernel_size(radius) as nat),
            radius,
        ),
{
    lemma_pixel_coords(width, x, y, c);
    lemma_row_inside(width, height, y);
}

/// The rounded mean of a kernel full of bytes is a byte.
proof fn lemma_mean_fits(sum: int, radius: int)
    requires
        0 <= radius,
        0 <= sum <= 255 * kernel_size(radius),
    ensures
        0 <= (sum + radius) / kernel_size(radius) <= 255,
{
    let k = kernel_size(radius);
    let q = (sum + radius) / k;
    vstd::arithmetic::div_mod::lemma_fundamental_div_mod(sum + radius, k);
    vstd::arithmetic::div_mod::lemma_mod_pos_bound(sum + radius, k);
    vstd::arithmetic::div_mod::lemma_div_pos_is_pos(sum + radius, k);
    if q > 255 {
        vstd::arithmetic::mul::lemma_mul_inequality(256, q, k);
        assert(false) by (nonlinear_arith)
            requires
                256 * k <= q * k,
                sum + radius == k * q + (sum + radius) % k,
                0 <= (sum + radius) % k,
                sum <= 255 * k,
                radius < k,
        ;
    }
}

/// Sum of the row kernel around byte (`x`, `y`, `c`); `row_start` is the
/// offset of row `y`.
fn row_window(
    src: &[u8],
    width: usize,
    height: usize,
    radius: u32,
    x: usize,
    y: usize,
    c: usize,
    row_start: usize,
) -> (sum: u64)
    requires
        x < width,
        y < height,
        c < 4,
        row_start == y * row_bytes(width as int),
        row_start + row_bytes(width as int) <= src@.len(),
        src@.len() == image_len(width as int, height as int),
    ensures
        sum == row_window_sum(
            src@,
            width as int,
            radius as int,
            x as int,
            y as int,
            c as int,
            kernel_size(radius as int) as nat,
        ),
        sum <= 255 * kernel_size(radius as int),
{
    let len = src.len();
    let r = radius as u64;
    let kernel = 2 * r + 1;
    let mut sum: u64 = 0;
    let mut k: u64 = 0;
    while k < kernel
        invariant
            x < width,
            y < height,
            c < 4,
            len == src@.len(),
            r == radius,
            kernel == kernel_size(radius as int),
            row_start == y * row_bytes(width as int),
            row_start + row_bytes(width as int) <= src@.len(),
            src@.len() == image_len(width as int, height as int),
            0 <= k <= kernel,
            sum == row_window_sum(src@, width as int, radius as int, x as int, y as int, c as int, k as nat),
            sum <= 255 * k,
        decreases kernel - k,
    {
        let t = x as u64 + k;
        let sx: usize = if t < r {
            0
        } else if t - r > (width - 1) as u64 {
            width - 1
        } else {
            (t - r) as usize
        };
        let idx = row_start + sx * 4 + c;
        assert(idx == pixel_index(
            width as int,
            clamp(x + k - radius, 0, width - 1),
            y as int,
            c as int,
        ));
        sum = sum + src[idx] as u64;
        k = k + 1;
    }
    sum
}

/// Sum of the column kernel around byte (`x`, `y`, `c`).
fn column_window(
    src: &[u8],
    width: usize,
    height: usize,
    radius: u32,
    x: usize,
    y: usize,
    c: usize,
) -> (sum: u64)
    requires
        x < width,
        y < height,
        c < 4,
        src@.len() == image_len(width as int, height as int),
    ensures
        sum == column_window_sum(
            src@,
            width as int,
            height as int,
            radius as int,
            x as int,
            y as int,
            c as int,
            kernel_size(radius as int) as nat,
        ),
        sum <= 255 * kernel_size(radius as int),
{
    let len = src.len();
    proof {
        lemma_row_inside(width as int, height as int, y as int);
        assert(height * row_bytes(width as int) >= 4 * height) by (nonlinear_arith)
            requires
                width >= 1,
        ;
    }
    let stride = width * 4;
    let r = radius as u64;
    let kernel = 2 * r + 1;
    let mut sum: u64 = 0;
    let mut k: u64 = 0;
    while k < kernel
        invariant
            len == src@.len(),
            4 * height <= len,
            x < width,
            y < height,
            c < 4,
            r == radius,
            kernel == kernel_size(radius as int),
            stride == row_bytes(width as int),
            src@.len() == image_len(width as int, height as int),
            0 <= k <= kernel,
            sum == column_window_sum(
                src@,
                width as int,
                height as int,
                radius as int,
                x as int,
                y as int,
                c as int,
                k as nat,
            ),
            sum <= 255 * k,
        decreases kernel - k,
    {
        let t = y as u64 + k;
        let sy: usize = if t < r {
            0
        } else if t - r > (height - 1) as u64 {
            height - 1
        } else {
            (t - r) as usize
        };
        proof {
            lemma_row_inside(width as int, height as int, sy as int);
        }
        let idx = sy * stride + x * 4 + c;
        assert(idx == pixel_index(
            width as int,
            x as int,
            clamp(y + k - radius, 0, height - 1),
            c as int,
        ));
        sum = sum + src[idx] as u64;
        k = k + 1;
    }
    sum
}

/// Writes into `dst` the image `src` with every byte replaced by the rounded
/// mean of its row window.
fn blur_rows(src: &[u8], dst: &mut [u8], width: usize, height: usize, radius: u32)
    requires
        4 * width <= usize::MAX,
        src@.len() == image_len(width as int, height as int),
        old(dst)@.len() == src@.len(),
    ensures
        final(dst)@ == blurred_rows(src@, width as int, radius as int),
{
    let ghost w = width as int;
    let ghost h = height as int;
    let len = src.len();
    let stride = width * 4;
    let mut y: usize = 0;
    let mut row_start: usize = 0;
    while y < height
        invariant
            len == src@.len(),
            w == width,
            h == height,
            stride == row_bytes(w),
            0 <= y <= height,
            row_start == y * row_bytes(w),
            src@.len() == image_len(w, h),
            dst@.len() == src@.len(),
            forall|xx: int, yy: int, cc: int|
                in_image(w, h, xx, yy, cc) && yy < y ==> #[trigger] dst@[pixel_index(w, xx, yy, cc)]
                    == rounded_mean(row_window_sum(src@, w, radius as int, xx, yy, cc, kernel_size(radius as int) as nat), radius as int),
        decreases height - y,
    {
        proof {
            lemma_row_inside(w, h, y as int);
        }
        let mut x: usize = 0;
        while x < width
            invariant
                len == src@.len(),
                w == width,
                h == height,
                stride == row_bytes(w),
                0 <= y < height,
                0 <= x <= width,
                row_start == y * row_bytes(w),
                row_start + stride <= src@.len(),
                src@.len() == image_len(w, h),
                dst@.len() == src@.len(),
                forall|xx: int, yy: int, cc: int|
                    in_image(w, h, xx, yy, cc) && (yy < y || (yy == y && xx < x))
                        ==> #[trigger] dst@[pixel_index(w, xx, yy, cc)] == rounded_mean(
                        row_window_sum(src@, w, radius as int, xx, yy, cc, kernel_size(radius as int) as nat),
                        radius as int,
                    ),
            decreases width - x,
        {
            let out = row_start + x * 4;
            let ghost prev = dst@;
            let mut c: usize = 0;
            while c < 4
                invariant
                    len == src@.len(),
                    w == width,
                    h == height,
                    0 <= y < height,
                    0 <= x < width,
                    0 <= c <= 4,
                    row_start == y * row_bytes(w),
                    row_start + stride <= src@.len(),
                    stride == row_bytes(w),
                    out == row_start + x * 4,
                    src@.len() == image_len(w, h),
                    dst@.len() == src@.len(),
                    forall|i: int|
                        0 <= i < dst@.len() && !(out <= i < out + c) ==> #[trigger] dst@[i]
                            == prev[i],
                    forall|cc: int|
                        0 <= cc < c ==> #[trigger] dst@[out + cc] == rounded_mean(
                            row_window_sum(src@, w, radius as int, x as int, y as int, cc, kernel_size(radius as int) as nat),
                            radius as int,
                        ),
                decreases 4 - c,
            {
                let sum = row_window(src, width, height, radius, x, y, c, row_start);
                proof {
                    lemma_mean_fits(sum as int, radius as int);
                }
                dst[out + c] = ((sum + radius as u64) / (2 * radius as u64 + 1)) as u8;
                c = c + 1;
            }
            proof {
                assert forall|xx: int, yy: int, cc: int|
                    in_image(w, h, xx, yy, cc) && (yy < y || (yy == y && xx < x + 1)) implies #[trigger] dst@[pixel_index(w, xx, yy, cc)]
                    == rounded_mean(row_window_sum(src@, w, radius as int, xx, yy, cc, kernel_size(radius as int) as nat), radius as int) by {
                    let q = pixel_index(w, xx, yy, cc);
                    lemma_row_inside(w, h, yy);
                    if yy < y {
                        crate::pixels::lemma_row_before(w, yy, y as int);
                        assert(dst@[q] == prev[q]);
                    } else if xx < x {
                        assert(dst@[q] == prev[q]);
                    } else {
                        assert(q == out + cc);
                    }
                }
            }
            x = x + 1;
        }
        proof {
            assert((y + 1) * row_bytes(w) == y * row_bytes(w) + row_bytes(w)) by (nonlinear_arith);
        }
        row_start = row_start + stride;
        y = y + 1;
    }
    proof {
        let m = blurred_rows(src@, w, radius as int);
        if w == 0 {
            assert(dst@.len() == 0) by (nonlinear_arith)
                requires
                    dst@.len() == h * (4 * w),
                    w == 0,
            ;
            assert(dst@ =~= m);
        } else {
            assert forall|xx: int, yy: int, cc: int| in_image(w, h, xx, yy, cc) implies #[trigger] dst@[pixel_index(w, xx, yy, cc)]
                == m[pixel_index(w, xx, yy, cc)] by {
                lemma_blurred_rows_at(src@, w, h, radius as int, xx, yy, cc);
            }
            lemma_equal_by_pixels(dst@, m, w, h);
        }
    }
}

/// Writes into `dst` the image `src` with every byte replaced by the rounded
/// mean of its column window.
fn blur_columns(src: &[u8], dst: &mut [u8], width: usize, height: usize, radius: u32)
    requires
        4 * width <= usize::MAX,
        src@.len() == image_len(width as int, height as int),
        old(dst)@.len() == src@.len(),
    ensures
        final(dst)@ == blurred_columns(src@, width as int, height as int, radius as int),
{
    let ghost w = width as int;
    let ghost h = height as int;
    let len = src.len();
    let stride = width * 4;
    let mut y: usize = 0;
    let mut row_start: usize = 0;
    while y < height
        invariant
            len == src@.len(),
            w == width,
            h == height,
            stride == row_bytes(w),
            0 <= y <= height,
            row_start == y * row_bytes(w),
            src@.len() == image_len(w, h),
            dst@.len() == src@.len(),
            forall|xx: int, yy: int, cc: int|
                in_image(w, h, xx, yy, cc) && yy < y ==> #[trigger] dst@[pixel_index(w, xx, yy, cc)]
                    == rounded_mean(column_window_sum(src@, w, h, radius as int, xx, yy, cc, kernel_size(radius as int) as nat), radius as int),
        decreases height - y,
    {
        proof {
            lemma_row_inside(w, h, y as int);
        }
        let mut x: usize = 0;
        while x < width
            invariant
                len == src@.len(),
                w == width,
                h == height,
                stride == row_bytes(w),
                0 <= y < height,
                0 <= x <= width,
                row_start == y * row_bytes(w),
                row_start + stride <= src@.len(),
                src@.len() == image_len(w, h),
                dst@.len() == src@.len(),
                forall|xx: int, yy: int, cc: int|
                    in_image(w, h, xx, yy, cc) && (yy < y || (yy == y && xx < x))
                        ==> #[trigger] dst@[pixel_index(w, xx, yy, cc)] == rounded_mean(
                        column_window_sum(src@, w, h, radius as int, xx, yy, cc, kernel_size(radius as int) as nat),
                        radius as int,
                    ),
            decreases width - x,
        {
            let out = row_start + x * 4;
            let ghost prev = dst@;
            let mut c: usize = 0;
            while c < 4
                invariant
                    len == src@.len(),
                    w == width,
                    h == height,
                    0 <= y < height,
                    0 <= x < width,
                    0 <= c <= 4,
                    row_start == y * row_bytes(w),
                    row_start + stride <= src@.len(),
                    stride == row_bytes(w),
                    out == row_start + x * 4,
                    src@.len() == image_len(w, h),
                    dst@.len() == src@.len(),
                    forall|i: int|
                        0 <= i < dst@.len() && !(out <= i < out + c) ==> #[trigger] dst@[i]
                            == prev[i],
                    forall|cc: int|
                        0 <= cc < c ==> #[trigger] dst@[out + cc] == rounded_mean(
                            column_window_sum(src@, w, h, radius as int, x as int, y as int, cc, kernel_size(radius as int) as nat),
                            radius as int,
                        ),
                decreases 4 - c,
            {
                let sum = column_window(src, width, height, radius, x, y, c);
                proof {
                    lemma_mean_fits(sum as int, radius as int);
                }
                dst[out + c] = ((sum + radius as u64) / (2 * radius as u64 + 1)) as u8;
                c = c + 1;
            }
            proof {
                assert forall|xx: int, yy: int, cc: int|
                    in_image(w, h, xx, yy, cc) && (yy < y || (yy == y && xx < x + 1)) implies #[trigger] dst@[pixel_index(w, xx, yy, cc)]
                    == rounded_mean(column_window_sum(src@, w, h, radius as int, xx, yy, cc, kernel_size(radius as int) as nat), radius as int) by {
                    let q = pixel_index(w, xx, yy, cc);
                    lemma_row_inside(w, h, yy);
                    if yy < y {
                        crate::pixels::lemma_row_before(w, yy, y as int);
                        assert(dst@[q] == prev[q]);
                    } else if xx < x {
                        assert(dst@[q] == prev[q]);
                    } else {
                        assert(q == out + cc);
                    }
                }
            }
            x = x + 1;
        }
        proof {
            assert((y + 1) * row_bytes(w) == y * row_bytes(w) + row_bytes(w)) by (nonlinear_arith);
        }
        row_start = row_start + stride;
        y = y + 1;
    }
    proof {
        let m = blurred_columns(src@, w, h, radius as int);
        if w == 0 {
            assert(dst@.len() == 0) by (nonlinear_arith)
                requires
                    dst@.len() == h * (4 * w),
                    w == 0,
            ;
            assert(dst@ =~= m);
        } else {
            assert forall|xx: int, yy: int, cc: int| in_image(w, h, xx, yy, cc) implies #[trigger] dst@[pixel_index(w, xx, yy, cc)]
                == m[pixel_index(w, xx, yy, cc)] by {
                lemma_blurred_columns_at(src@, w, h, radius as int, xx, yy, cc);
            }
            lemma_equal_by_pixels(dst@, m, w, h);
        }
    }
}

/// Blurs a `width` by `height` RGBA8 image in place with `iterations` passes
/// of the box blur of radius `radius`.
pub fn blur_box_with(buf: &mut [u8], width: usize, height: usize, radius: u32, iterations: u32)
    requires
        4 * width <= usize::MAX,
        old(buf)@.len() == image_len(width as int, height as int),
    ensures
        final(buf)@ == box_blurred(
            old(buf)@,
            width as int,
            height as int,
            radius as int,
            iterations as nat,
        ),
{
    let ghost orig = buf@;
    let len = buf.len();
    let mut temp: Vec<u8> = vec![0u8; len];
    let mut it: u32 = 0;
    while it < iterations
        invariant
            4 * width <= usize::MAX,
            orig.len() == image_len(width as int, height as int),
            buf@.len() == len,
            orig.len() == len,
            temp@.len() == len,
            0 <= it <= iterations,
            buf@ == box_blurred(orig, width as int, height as int, radius as int, it as nat),
        decreases iterations - it,
    {
        blur_rows(buf, temp.as_mut_slice(), width, height, radius);
        blur_columns(temp.as_slice(), buf, width, height, radius);
        it = it + 1;
    }
}

/// Blurs a `width` by `height` RGBA8 image in place with `BOX_BLUR_ITERATIONS`
/// passes of the box blur of radius `BOX_BLUR_RADIUS`.
///
/// Tap positions are computed in 32-bit signed arithmetic, so a non-empty
/// image may be at most `i32::MAX - 2 * BOX_BLUR_RADIUS + 1` pixels wide and high.
pub fn blur_box(buf: &mut [u8], width: usize, height: usize)
    requires
        4 * width <= usize::MAX,
        old(buf)@.len() == image_len(width as int, height as int),
        0 < width && 0 < height ==> width + 2 * BOX_BLUR_RADIUS - 1 <= i32::MAX && height + 2
            * BOX_BLUR_RADIUS - 1 <= i32::MAX,
    ensures
        final(buf)@ == box_blurred(
            old(buf)@,
            width as int,
            height as int,
            BOX_BLUR_RADIUS as int,
            BOX_BLUR_ITERATIONS as nat,
        ),
{
    blur_box_with(buf, width, height, BOX_BLUR_RADIUS, BOX_BLUR_ITERATIONS);
}

/// Parameters of the box blur of the blur plugin.
#[derive(Debug, Copy, Clone, PartialEq, Eq, Structural)]
pub struct BoxBlurParams {
    /// Taps on each side of the centre of the kernel.
    pub radius: u32,
    /// Number of passes.
    pub iterations: u32,
}

/// The blur plugin's entry point for the box method: blurs the `width` by
/// `height` RGBA8 image at the front of `rgba_data` with [`blur_box_with`] as
/// `params` asks, and returns the status code.
///
/// `params` is `None` when the parameters could not be read. A size that
/// does not fit in memory is reported before the parameters are looked at.
/// Bytes after the image are left as they are.
pub fn process_image(
    width: u32,
    height: u32,
    rgba_data: &mut Vec<u8>,
    params: Option<BoxBlurParams>,
) -> (code: i32)
    requires
        data_size(width, height) <= usize::MAX ==> old(rgba_data)@.len() >= data_size(
            width,
            height,
        ) && 4 * width <= usize::MAX,
    ensures
        data_size(width, height) > usize::MAX ==> code == error_code(PluginError::InvalidSize)
            && final(rgba_data)@ == old(rgba_data)@,
        data_size(width, height) <= usize::MAX && params is None ==> code == error_code(
            PluginError::InvalidParams,
        ) && final(rgba_data)@ == old(rgba_data)@,
        data_size(width, height) <= usize::MAX && params is Some ==> code == error_code(
            PluginError::Success,
        ) && final(rgba_data)@ == box_blurred(
            old(rgba_data)@.take(data_size(width, height)),
            width as int,
            height as int,
            params->0.radius as int,
            params->0.iterations as nat,
        ) + old(rgba_data)@.skip(data_size(width, height)),
{
    let w = width as usize;
    let h = height as usize;
    let size = match rgba_data_size(width, height) {
        Some(n) => n,
        None => {
            return PluginError::InvalidSize.code();
        },
    };
    let params = match params {
        Some(p) => p,
        None => {
            return PluginError::InvalidParams.code();
        },
    };
    let ghost orig = rgba_data@;
    proof {
        assert(image_len(w as int, h as int) == size) by (nonlinear_arith)
            requires
                size == width * height * 4,
                w == width,
                h == height,
        ;
    }
    let mut rest = rgba_data.split_off(size);
    let ghost front = rgba_data@;
    blur_box_with(rgba_data.as_mut_slice(), w, h, params.radius, params.iterations);
    rgba_data.append(&mut rest);
    assert(orig.take(size as int) == front);
    PluginError::Success.code()
}

/// Every pixel of the image has the same colour.
pub open spec fn is_uniform(s: Seq<u8>, width: int, height: int) -> bool {
    forall|x: int, y: int, c: int|
        in_image(width, height, x, y, c) ==> #[trigger] s[pixel_index(width, x, y, c)] == s[c]
}

proof fn lemma_uniform_row_sum(
    s: Seq<u8>,
    width: int,
    height: int,
    radius: int,
    x: int,
    y: int,
    c: int,
    n: nat,
)
    requires
        0 < width,
        is_uniform(s, width, height),
        in_image(width, height, x, y, c),
    ensures
        row_window_sum(s, width, radius, x, y, c, n) == n * s[c],
    decreases n,
{
    if n > 0 {
        lemma_uniform_row_sum(s, width, height, radius, x, y, c, (n - 1) as nat);
        let sx = clamp(x + (n - 1) - radius, 0, width - 1);
        assert(s[pixel_index(width, sx, y, c)] == s[c]);
        assert(row_tap(s, width, radius, x, y, c, n - 1) == s[c]);
        assert((n - 1) * s[c] + s[c] == n * s[c]) by (nonlinear_arith);
    } else {
        assert(0 * s[c] == 0) by (nonlinear_arith);
    }
}

proof fn lemma_uniform_column_sum(
    s: Seq<u8>,
    width: int,
    height: int,
    radius: int,
    x: int,
    y: int,
    c: int,
    n: nat,
)
    requires
        0 < width,
        is_uniform(s, width, height),
        in_image(width, height, x, y, c),
    ensures
        column_window_sum(s, width, height, radius, x, y, c, n) == n * s[c],
    decreases n,
{
    if n > 0 {
        lemma_uniform_column_sum(s, width, height, radius, x, y, c, (n - 1) as nat);
        let sy = clamp(y + (n - 1) - radius, 0, height - 1);
        assert(s[pixel_index(width, x, sy, c)] == s[c]);
        assert(column_tap(s, width, height, radius, x, y, c, n - 1) == s[c]);
        assert((n - 1) * s[c] + s[c] == n * s[c]) by (nonlinear_arith);
    } else {
        assert(0 * s[c] == 0) by (nonlinear_arith);
    }
}

/// The mean of a kernel that holds `v` in every tap is `v`.
proof fn lemma_mean_of_constant(v: int, radius: int)
    requires
        0 <= radius,
        0 <= v <= 255,
    ensures
        rounded_mean(kernel_size(radius) * v, radius) == v,
{
    let k = kernel_size(radius);
    assert(k * v + radius == v * k + radius) by (nonlinear_arith);
    vstd::arithmetic::div_mod::lemma_fundamental_div_mod_converse(k * v + radius, k, v, radius);
}

proof fn lemma_uniform_pass(s: Seq<u8>, width: int, height: int, radius: int)
    requires
        0 < width,
        0 < height,
        0 <= radius,
        s.len() == image_len(width, height),
        is_uniform(s, width, height),
    ensures
        box_blur_pass(s, width, height, radius) == s,
{
    let r = blurred_rows(s, width, radius);
    assert forall|x: int, y: int, c: int| in_image(width, height, x, y, c) implies #[trigger] r[pixel_index(width, x, y, c)]
        == s[pixel_index(width, x, y, c)] by {
        lemma_blurred_rows_at(s, width, height, radius, x, y, c);
        lemma_uniform_row_sum(s, width, height, radius, x, y, c, kernel_size(radius) as nat);
        lemma_mean_of_constant(s[c] as int, radius);
    }
    lemma_equal_by_pixels(r, s, width, height);
    let b = blurred_columns(s, width, height, radius);
    assert forall|x: int, y: int, c: int| in_image(width, height, x, y, c) implies #[trigger] b[pixel_index(width, x, y, c)]
        == s[pixel_index(width, x, y, c)] by {
        lemma_blurred_columns_at(s, width, height, radius, x, y, c);
        lemma_uniform_column_sum(s, width, height, radius, x, y, c, kernel_size(radius) as nat);
        lemma_mean_of_constant(s[c] as int, radius);
    }
    lemma_equal_by_pixels(b, s, width, height);
}

/// Blurring an image whose pixels all have the same colour leaves it as it is,
/// whatever the radius and the number of passes.
pub proof fn lemma_uniform_image_unchanged(
    s: Seq<u8>,
    width: int,
    height: int,
    radius: int,
    n: nat,
)
    requires
        0 < width,
        0 < height,
        0 <= radius,
        s.len() == image_len(width, height),
        is_uniform(s, width, height),
    ensures
        box_blurred(s, width, height, radius, n) == s,
    decreases n,
{
    if n > 0 {
        lemma_uniform_image_unchanged(s, width, height, radius, (n - 1) as nat);
        lemma_uniform_pass(s, width, height, radius);
    }
}

proof fn lemma_radius_zero_pass(s: Seq<u8>, width: int, height: int)
    requires
        0 < width,
        s.len() == image_len(width, height),
    ensures
        box_blur_pass(s, width, height, 0) == s,
{
    let r = blurred_rows(s, width, 0);
    assert forall|x: int, y: int, c: int| in_image(width, height, x, y, c) implies #[trigger] r[pixel_index(width, x, y, c)]
        == s[pixel_index(width, x, y, c)] by {
        lemma_blurred_rows_at(s, width, height, 0, x, y, c);
        assert(row_window_sum(s, width, 0, x, y, c, 0) == 0);
        assert(row_window_sum(s, width, 0, x, y, c, 1) == s[pixel_index(width, x, y, c)]);
        let v = s[pixel_index(width, x, y, c)] as int;
        assert(kernel_size(0) == 1);
        vstd::arithmetic::div_mod::lemma_fundamental_div_mod_converse(v + 0, 1, v, 0);
    }
    lemma_equal_by_pixels(r, s, width, height);
    let b = blurred_columns(s, width, height, 0);
    assert forall|x: int, y: int, c: int| in_image(width, height, x, y, c) implies #[trigger] b[pixel_index(width, x, y, c)]
        == s[pixel_index(width, x, y, c)] by {
        lemma_blurred_columns_at(s, width, height, 0, x, y, c);
        assert(column_window_sum(s, width, height, 0, x, y, c, 0) == 0);
        assert(column_window_sum(s, width, height, 0, x, y, c, 1) == s[pixel_index(width, x, y, c)]);
        let v = s[pixel_index(width, x, y, c)] as int;
        assert(kernel_size(0) == 1);
        vstd::arithmetic::div_mod::lemma_fundamental_div_mod_converse(v + 0, 1, v, 0);
    }
    lemma_equal_by_pixels(b, s, width, height);
}

/// A box blur of radius 0 leaves every image as it is, whatever the number
/// of passes.
pub proof fn lemma_radius_zero_unchanged(s: Seq<u8>, width: int, height: int, n: nat)
    requires
        0 < width,
        s.len() == image_len(width, height),
    ensures
        box_blurred(s, width, height, 0, n) == s,
    decreases n,
{
    if n > 0 {
        lemma_radius_zero_unchanged(s, width, height, (n - 1) as nat);
        lemma_radius_zero_pass(s, width, height);
    }
}

/// Sum of `f(i)` over `lo <= i < hi`.
pub open spec fn sum_range(f: spec_fn(int) -> int, lo: int, hi: int) -> int
    decreases hi - lo,
{
    if hi <= lo {
        0
    } else {
        sum_range(f, lo, hi - 1) + f(hi - 1)
    }
}

proof fn lemma_sum_front(f: spec_fn(int) -> int, lo: int, hi: int)
    requires
        lo < hi,
    ensures
        sum_range(f, lo, hi) == f(lo) + sum_range(f, lo + 1, hi),
    decreases hi - lo,
{
    if hi - 1 > lo {
        lemma_sum_front(f, lo, hi - 1);
    } else {
        assert(sum_range(f, lo, lo) == 0);
    }
}

/// A sum does not depend on the order of its terms: summing `g` over
/// `b .. b + n` gives the sum of `f` over `a .. a + n` when `g` reads `f`
/// backwards.
proof fn lemma_sum_reversed(f: spec_fn(int) -> int, g: spec_fn(int) -> int, a: int, b: int, n: nat)
    requires
        forall|i: int| 0 <= i < n ==> #[trigger] g(b + i) == f(a + n - 1 - i),
    ensures
        sum_range(f, a, a + n) == sum_range(g, b, b + n),
    decreases n,
{
    if n > 0 {
        lemma_sum_front(f, a, a + n);
        assert forall|i: int| 0 <= i < (n - 1) as nat implies #[trigger] g(b + i) == f(
            (a + 1) + (n - 1) as nat - 1 - i,
        ) by {
            assert(g(b + i) == f(a + n - 1 - i));
        }
        lemma_sum_reversed(f, g, a + 1, b, (n - 1) as nat);
        assert(g(b + (n - 1)) == f(a + n - 1 - (n - 1)));
    }
}

proof fn lemma_row_sum_as_range(
    s: Seq<u8>,
    width: int,
    radius: int,
    x: int,
    y: int,
    c: int,
    n: nat,
)
    ensures
        row_window_sum(s, width, radius, x, y, c, n) == sum_range(
            |i: int| row_tap(s, width, radius, x, y, c, i),
            0,
            n as int,
        ),
    decreases n,
{
    if n > 0 {
        lemma_row_sum_as_range(s, width, radius, x, y, c, (n - 1) as nat);
    }
}

proof fn lemma_column_sum_as_range(
    s: Seq<u8>,
    width: int,
    height: int,
    radius: int,
    x: int,
    y: int,
    c: int,
    n: nat,
)
    ensures
        column_window_sum(s, width, height, radius, x, y, c, n) == sum_range(
            |i: int| column_tap(s, width, height, radius, x, y, c, i),
            0,
            n as int,
        ),
    decreases n,
{
    if n > 0 {
        lemma_column_sum_as_range(s, width, height, radius, x, y, c, (n - 1) as nat);
    }
}

/// Every pass of the box blur keeps the size of the image.
pub proof fn lemma_box_blurred_len(s: Seq<u8>, width: int, height: int, radius: int, n: nat)
    ensures
        box_blurred(s, width, height, radius, n).len() == s.len(),
    decreases n,
{
    if n > 0 {
        lemma_box_blurred_len(s, width, height, radius, (n - 1) as nat);
    }
}

proof fn lemma_rows_commute_horizontally(s: Seq<u8>, width: int, height: int, radius: int)
    requires
        0 < width,
        0 <= radius,
        s.len() == image_len(width, height),
    ensures
        blurred_rows(mirrored_horizontally(s, width), width, radius) == mirrored_horizontally(
            blurred_rows(s, width, radius),
            width,
        ),
{
    let m = mirrored_horizontally(s, width);
    let lhs = blurred_rows(m, width, radius);
    let rhs = mirrored_horizontally(blurred_rows(s, width, radius), width);
    let k = kernel_size(radius);
    assert forall|x: int, y: int, c: int| in_image(width, height, x, y, c) implies #[trigger] lhs[pixel_index(width, x, y, c)]
        == rhs[pixel_index(width, x, y, c)] by {
        lemma_blurred_rows_at(m, width, height, radius, x, y, c);
        lemma_mirrored_horizontally_at(blurred_rows(s, width, radius), width, height, x, y, c);
        lemma_blurred_rows_at(s, width, height, radius, width - 1 - x, y, c);
        let fm = |i: int| row_tap(m, width, radius, x, y, c, i);
        let fs = |i: int| row_tap(s, width, radius, width - 1 - x, y, c, i);
        assert forall|i: int| 0 <= i < k as nat implies #[trigger] fs(0 + i) == fm(0 + k as nat - 1 - i) by {
            let j = k - 1 - i;
            lemma_mirrored_horizontally_at(s, width, height, clamp(x + j - radius, 0, width - 1), y, c);
        }
        lemma_sum_reversed(fm, fs, 0, 0, k as nat);
        lemma_row_sum_as_range(m, width, radius, x, y, c, k as nat);
        lemma_row_sum_as_range(s, width, radius, width - 1 - x, y, c, k as nat);
    }
    lemma_equal_by_pixels(lhs, rhs, width, height);
}

proof fn lemma_column_sum_mirrored_horizontally(
    t: Seq<u8>,
    width: int,
    height: int,
    radius: int,
    x: int,
    y: int,
    c: int,
    n: nat,
)
    requires
        t.len() == image_len(width, height),
        in_image(width, height, x, y, c),
    ensures
        column_window_sum(mirrored_horizontally(t, width), width, height, radius, x, y, c, n)
            == column_window_sum(t, width, height, radius, width - 1 - x, y, c, n),
    decreases n,
{
    if n > 0 {
        lemma_column_sum_mirrored_horizontally(t, width, height, radius, x, y, c, (n - 1) as nat);
        lemma_mirrored_horizontally_at(
            t,
            width,
            height,
            x,
            clamp(y + (n - 1) - radius, 0, height - 1),
            c,
        );
    }
}

proof fn lemma_columns_commute_horizontally(t: Seq<u8>, width: int, height: int, radius: int)
    requires
        0 < width,
        t.len() == image_len(width, height),
    ensures
        blurred_columns(mirrored_horizontally(t, width), width, height, radius)
            == mirrored_horizontally(blurred_columns(t, width, height, radius), width),
{
    let m = mirrored_horizontally(t, width);
    let lhs = blurred_columns(m, width, height, radius);
    let rhs = mirrored_horizontally(blurred_columns(t, width, height, radius), width);
    assert forall|x: int, y: int, c: int| in_image(width, height, x, y, c) implies #[trigger] lhs[pixel_index(width, x, y, c)]
        == rhs[pixel_index(width, x, y, c)] by {
        lemma_blurred_columns_at(m, width, height, radius, x, y, c);
        lemma_mirrored_horizontally_at(blurred_columns(t, width, height, radius), width, height, x, y, c);
        lemma_blurred_columns_at(t, width, height, radius, width - 1 - x, y, c);
        lemma_column_sum_mirrored_horizontally(t, width, height, radius, x, y, c, kernel_size(radius) as nat);
    }
    lemma_equal_by_pixels(lhs, rhs, width, height);
}

/// The box blur and the horizontal mirror give the same image in either order.
pub proof fn lemma_blur_commutes_with_horizontal_mirror(
    s: Seq<u8>,
    width: int,
    height: int,
    radius: int,
    n: nat,
)
    requires
        0 <= width,
        0 <= height,
        0 <= radius,
        s.len() == image_len(width, height),
    ensures
        box_blurred(mirrored_horizontally(s, width), width, height, radius, n)
            == mirrored_horizontally(box_blurred(s, width, height, radius, n), width),
    decreases n,
{
    let lhs = box_blurred(mirrored_horizontally(s, width), width, height, radius, n);
    let rhs = mirrored_horizontally(box_blurred(s, width, height, radius, n), width);
    if width == 0 || height == 0 {
        lemma_empty_image(s, width, height);
        lemma_box_blurred_len(mirrored_horizontally(s, width), width, height, radius, n);
        lemma_box_blurred_len(s, width, height, radius, n);
        assert(lhs =~= rhs);
    } else if n > 0 {
        let prev = box_blurred(s, width, height, radius, (n - 1) as nat);
        lemma_blur_commutes_with_horizontal_mirror(s, width, height, radius, (n - 1) as nat);
        lemma_box_blurred_len(s, width, height, radius, (n - 1) as nat);
        lemma_rows_commute_horizontally(prev, width, height, radius);
        lemma_columns_commute_horizontally(blurred_rows(prev, width, radius), width, height, radius);
    }
}

proof fn lemma_row_sum_mirrored_vertically(
    s: Seq<u8>,
    width: int,
    height: int,
    radius: int,
    x: int,
    y: int,
    c: int,
    n: nat,
)
    requires
        s.len() == image_len(width, height),
        in_image(width, height, x, y, c),
    ensures
        row_window_sum(mirrored_vertically(s, width, height), width, radius, x, y, c, n)
            == row_window_sum(s, width, radius, x, height - 1 - y, c, n),
    decreases n,
{
    if n > 0 {
        lemma_row_sum_mirrored_vertically(s, width, height, radius, x, y, c, (n - 1) as nat);
        lemma_mirrored_vertically_at(
            s,
            width,
            height,
            clamp(x + (n - 1) - radius, 0, width - 1),
            y,
            c,
        );
    }
}

proof fn lemma_rows_commute_vertically(s: Seq<u8>, width: int, height: int, radius: int)
    requires
        0 < width,
        s.len() == image_len(width, height),
    ensures
        blurred_rows(mirrored_vertically(s, width, height), width, radius) == mirrored_vertically(
            blurred_rows(s, width, radius),
            width,
            height,
        ),
{
    let m = mirrored_vertically(s, width, height);
    let lhs = blurred_rows(m, width, radius);
    let rhs = mirrored_vertically(blurred_rows(s, width, radius), width, height);
    assert forall|x: int, y: int, c: int| in_image(width, height, x, y, c) implies #[trigger] lhs[pixel_index(width, x, y, c)]
        == rhs[pixel_index(width, x, y, c)] by {
        lemma_blurred_rows_at(m, width, height, radius, x, y, c);
        lemma_mirrored_vertically_at(blurred_rows(s, width, radius), width, height, x, y, c);
        lemma_blurred_rows_at(s, width, height, radius, x, height - 1 - y, c);
        lemma_row_sum_mirrored_vertically(s, width, height, radius, x, y, c, kernel_size(radius) as nat);
    }
    lemma_equal_by_pixels(lhs, rhs, width, height);
}

proof fn lemma_columns_commute_vertically(t: Seq<u8>, width: int, height: int, radius: int)
    requires
        0 < width,
        0 < height,
        0 <= radius,
        t.len() == image_len(width, height),
    ensures
        blurred_columns(mirrored_vertically(t, width, height), width, height, radius)
            == mirrored_vertically(blurred_columns(t, width, height, radius), width, height),
{
    let m = mirrored_vertically(t, width, height);
    let lhs = blurred_columns(m, width, height, radius);
    let rhs = mirrored_vertically(blurred_columns(t, width, height, radius), width, height);
    let k = kernel_size(radius);
    assert forall|x: int, y: int, c: int| in_image(width, height, x, y, c) implies #[trigger] lhs[pixel_index(width, x, y, c)]
        == rhs[pixel_index(width, x, y, c)] by {
        lemma_blurred_columns_at(m, width, height, radius, x, y, c);
        lemma_mirrored_vertically_at(blurred_columns(t, width, height, radius), width, height, x, y, c);
        lemma_blurred_columns_at(t, width, height, radius, x, height - 1 - y, c);
        let fm = |i: int| column_tap(m, width, height, radius, x, y, c, i);
        let ft = |i: int| column_tap(t, width, height, radius, x, height - 1 - y, c, i);
        assert forall|i: int| 0 <= i < k as nat implies #[trigger] ft(0 + i) == fm(0 + k as nat - 1 - i) by {
            let j = k - 1 - i;
            lemma_mirrored_vertically_at(t, width, height, x, clamp(y + j - radius, 0, height - 1), c);
        }
        lemma_sum_reversed(fm, ft, 0, 0, k as nat);
        lemma_column_sum_as_range(m, width, height, radius, x, y, c, k as nat);
        lemma_column_sum_as_range(t, width, height, radius, x, height - 1 - y, c, k as nat);
    }
    lemma_equal_by_pixels(lhs, rhs, width, height);
}

/// The box blur and the vertical mirror give the same image in either order.
pub proof fn lemma_blur_commutes_with_vertical_mirror(
    s: Seq<u8>,
    width: int,
    height: int,
    radius: int,
    n: nat,
)
    requires
        0 <= width,
        0 <= height,
        0 <= radius,
        s.len() == image_len(width, height),
    ensures
        box_blurred(mirrored_vertically(s, width, height), width, height, radius, n)
            == mirrored_vertically(box_blurred(s, width, height, radius, n), width, height),
    decreases n,
{
    let lhs = box_blurred(mirrored_vertically(s, width, height), width, height, radius, n);
    let rhs = mirrored_vertically(box_blurred(s, width, height, radius, n), width, height);
    if width == 0 || height == 0 {
        lemma_empty_image(s, width, height);
        lemma_box_blurred_len(mirrored_vertically(s, width, height), width, height, radius, n);
        lemma_box_blurred_len(s, width, height, radius, n);
        assert(lhs =~= rhs);
    } else if n > 0 {
        let prev = box_blurred(s, width, height, radius, (n - 1) as nat);
        lemma_blur_commutes_with_vertical_mirror(s, width, height, radius, (n - 1) as nat);
        lemma_box_blurred_len(s, width, height, radius, (n - 1) as nat);
        lemma_rows_commute_vertically(prev, width, height, radius);
        lemma_columns_commute_vertically(blurred_rows(prev, width, radius), width, height, radius);
    }
}

/// The images `a` and `b` agree on channel `c` at every pixel.
pub open spec fn same_channel(a: Seq<u8>, b: Seq<u8>, width: int, height: int, c: int) -> bool {
    forall|x: int, y: int|
        0 <= x < width && 0 <= y < height ==> #[trigger] a[pixel_index(width, x, y, c)]
            == b[pixel_index(width, x, y, c)]
}

proof fn lemma_row_sum_same_channel(
    a: Seq<u8>,
    b: Seq<u8>,
    width: int,
    height: int,
    radius: int,
    x: int,
    y: int,
    c: int,
    n: nat,
)
    requires
        same_channel(a, b, width, height, c),
        in_image(width, height, x, y, c),
    ensures
        row_window_sum(a, width, radius, x, y, c, n) == row_window_sum(b, width, radius, x, y, c, n),
    decreases n,
{
    if n > 0 {
        lemma_row_sum_same_channel(a, b, width, height, radius, x, y, c, (n - 1) as nat);
        let sx = clamp(x + (n - 1) - radius, 0, width - 1);
        assert(a[pixel_index(width, sx, y, c)] == b[pixel_index(width, sx, y, c)]);
    }
}

proof fn lemma_column_sum_same_channel(
    a: Seq<u8>,
    b: Seq<u8>,
    width: int,
    height: int,
    radius: int,
    x: int,
    y: int,
    c: int,
    n: nat,
)
    requires
        same_channel(a, b, width, height, c),
        in_image(width, height, x, y, c),
    ensures
        column_window_sum(a, width, height, radius, x, y, c, n) == column_window_sum(
            b,
            width,
            height,
            radius,
            x,
            y,
            c,
            n,
        ),
    decreases n,
{
    if n > 0 {
        lemma_column_sum_same_channel(a, b, width, height, radius, x, y, c, (n - 1) as nat);
        let sy = clamp(y + (n - 1) - radius, 0, height - 1);
        assert(a[pixel_index(width, x, sy, c)] == b[pixel_index(width, x, sy, c)]);
    }
}

proof fn lemma_pass_same_channel(a: Seq<u8>, b: Seq<u8>, width: int, height: int, radius: int, c: int)
    requires
        0 <= c < 4,
        a.len() == image_len(width, height),
        b.len() == image_len(width, height),
        same_channel(a, b, width, height, c),
    ensures
        same_channel(
            box_blur_pass(a, width, height, radius),
            box_blur_pass(b, width, height, radius),
            width,
            height,
            c,
        ),
{
    let ra = blurred_rows(a, width, radius);
    let rb = blurred_rows(b, width, radius);
    assert forall|x: int, y: int| 0 <= x < width && 0 <= y < height implies #[trigger] ra[pixel_index(width, x, y, c)]
        == rb[pixel_index(width, x, y, c)] by {
        lemma_blurred_rows_at(a, width, height, radius, x, y, c);
        lemma_blurred_rows_at(b, width, height, radius, x, y, c);
        lemma_row_sum_same_channel(a, b, width, height, radius, x, y, c, kernel_size(radius) as nat);
    }
    let ca = blurred_columns(ra, width, height, radius);
    let cb = blurred_columns(rb, width, height, radius);
    assert forall|x: int, y: int| 0 <= x < width && 0 <= y < height implies #[trigger] ca[pixel_index(width, x, y, c)]
        == cb[pixel_index(width, x, y, c)] by {
        lemma_blurred_columns_at(ra, width, height, radius, x, y, c);
        lemma_blurred_columns_at(rb, width, height, radius, x, y, c);
        lemma_column_sum_same_channel(ra, rb, width, height, radius, x, y, c, kernel_size(radius) as nat);
    }
}

/// The channels of an image never mix under the box blur: channel `c` of the
/// result depends on channel `c` of the input alone, so two images that agree
/// on that channel still agree on it after any number of passes.
pub proof fn lemma_blur_keeps_channels_apart(
    a: Seq<u8>,
    b: Seq<u8>,
    width: int,
    height: int,
    radius: int,
    c: int,
    n: nat,
)
    requires
        0 <= c < 4,
        a.len() == image_len(width, height),
        b.len() == image_len(width, height),
        same_channel(a, b, width, height, c),
    ensures
        same_channel(
            box_blurred(a, width, height, radius, n),
            box_blurred(b, width, height, radius, n),
            width,
            height,
            c,
        ),
    decreases n,
{
    if n > 0 {
        lemma_blur_keeps_channels_apart(a, b, width, height, radius, c, (n - 1) as nat);
        lemma_box_blurred_len(a, width, height, radius, (n - 1) as nat);
        lemma_box_blurred_len(b, width, height, radius, (n - 1) as nat);
        lemma_pass_same_channel(
            box_blurred(a, width, height, radius, (n - 1) as nat),
            box_blurred(b, width, height, radius, (n - 1) as nat),
            width,
            height,
            radius,
            c,
        );
    }
}

proof fn lemma_sum_split(f: spec_fn(int) -> int, lo: int, mid: int, hi: int)
    requires
        lo <= mid <= hi,
    ensures
        sum_range(f, lo, hi) == sum_range(f, lo, mid) + sum_range(f, mid, hi),
    decreases hi - mid,
{
    if hi > mid {
        lemma_sum_split(f, lo, mid, hi - 1);
    }
}

proof fn lemma_sum_constant(f: spec_fn(int) -> int, lo: int, hi: int, v: int)
    requires
        lo <= hi,
        forall|i: int| lo <= i < hi ==> #[trigger] f(i) == v,
    ensures
        sum_range(f, lo, hi) == (hi - lo) * v,
    decreases hi - lo,
{
    if hi > lo {
        lemma_sum_constant(f, lo, hi - 1, v);
        assert((hi - 1 - lo) * v + v == (hi - lo) * v) by (nonlinear_arith);
    } else {
        assert(0 * v == 0) by (nonlinear_arith);
    }
}

proof fn lemma_sum_shift(f: spec_fn(int) -> int, g: spec_fn(int) -> int, a: int, b: int, n: nat)
    requires
        forall|i: int| 0 <= i < n ==> #[trigger] f(a + i) == g(b + i),
    ensures
        sum_range(f, a, a + n) == sum_range(g, b, b + n),
    decreases n,
{
    if n > 0 {
        lemma_sum_shift(f, g, a, b, (n - 1) as nat);
        assert(f(a + (n - 1)) == g(b + (n - 1)));
    }
}

/// The row window of a byte, in terms of the image itself: the bytes of the
/// same channel in the consecutive columns `first ..= last` of its row that the
/// window covers, plus one copy of the leftmost pixel for every tap that falls
/// off the left edge and one copy of the rightmost pixel for every tap that
/// falls off the right edge.
pub proof fn lemma_row_window_by_edges(
    s: Seq<u8>,
    width: int,
    radius: int,
    x: int,
    y: int,
    c: int,
)
    requires
        0 <= radius,
        0 <= x < width,
    ensures
        ({
            let before = if x < radius {
                radius - x
            } else {
                0
            };
            let after = if x + radius > width - 1 {
                x + radius - (width - 1)
            } else {
                0
            };
            let first = if x < radius {
                0
            } else {
                x - radius
            };
            let last = if x + radius > width - 1 {
                width - 1
            } else {
                x + radius
            };
            row_window_sum(s, width, radius, x, y, c, kernel_size(radius) as nat) == before
                * s[pixel_index(width, 0, y, c)] + sum_range(
                |j: int| s[pixel_index(width, j, y, c)] as int,
                first,
                last + 1,
            ) + after * s[pixel_index(width, width - 1, y, c)]
        }),
{
    let before = if x < radius {
        radius - x
    } else {
        0
    };
    let after = if x + radius > width - 1 {
        x + radius - (width - 1)
    } else {
        0
    };
    let first = if x < radius {
        0
    } else {
        x - radius
    };
    let last = if x + radius > width - 1 {
        width - 1
    } else {
        x + radius
    };
    let k = kernel_size(radius);
    let f = |i: int| row_tap(s, width, radius, x, y, c, i);
    let g = |j: int| s[pixel_index(width, j, y, c)] as int;
    lemma_row_sum_as_range(s, width, radius, x, y, c, k as nat);
    lemma_sum_split(f, 0, before, k);
    lemma_sum_split(f, before, k - after, k);
    assert forall|i: int| 0 <= i < before implies #[trigger] f(i) == s[pixel_index(width, 0, y, c)] as int by {
    }
    lemma_sum_constant(f, 0, before, s[pixel_index(width, 0, y, c)] as int);
    assert forall|i: int| k - after <= i < k implies #[trigger] f(i) == s[pixel_index(width, width - 1, y, c)] as int by {
    }
    lemma_sum_constant(f, k - after, k, s[pixel_index(width, width - 1, y, c)] as int);
    let m = last + 1 - first;
    assert(k - after == before + m);
    assert forall|i: int| 0 <= i < m as nat implies #[trigger] f(before + i) == g(first + i) by {
    }
    lemma_sum_shift(f, g, before, first, m as nat);
}

/// The column pass is the row pass of the transposed image, transposed back:
/// columns are blurred exactly as rows are.
pub proof fn lemma_column_pass_is_transposed_row_pass(t: Seq<u8>, width: int, height: int, radius: int)
    requires
        0 < width,
        0 < height,
        t.len() == image_len(width, height),
    ensures
        blurred_columns(t, width, height, radius) == transposed(
            blurred_rows(transposed(t, width, height), height, radius),
            height,
            width,
        ),
{
    let tt = transposed(t, width, height);
    let r = blurred_rows(tt, height, radius);
    let lhs = blurred_columns(t, width, height, radius);
    let rhs = transposed(r, height, width);
    lemma_transposed_len(t, width, height);
    assert(r.len() == image_len(height, width));
    lemma_transposed_len(r, height, width);
    assert forall|x: int, y: int, c: int| in_image(width, height, x, y, c) implies #[trigger] lhs[pixel_index(width, x, y, c)]
        == rhs[pixel_index(width, x, y, c)] by {
        lemma_blurred_columns_at(t, width, height, radius, x, y, c);
        lemma_transposed_at(r, height, width, x, y, c);
        lemma_blurred_rows_at(tt, height, width, radius, y, x, c);
        lemma_column_sum_is_transposed_row_sum(t, width, height, radius, x, y, c, kernel_size(radius) as nat);
    }
    lemma_equal_by_pixels(lhs, rhs, width, height);
}

proof fn lemma_column_sum_is_transposed_row_sum(
    t: Seq<u8>,
    width: int,
    height: int,
    radius: int,
    x: int,
    y: int,
    c: int,
    n: nat,
)
    requires
        t.len() == image_len(width, height),
        in_image(width, height, x, y, c),
    ensures
        column_window_sum(t, width, height, radius, x, y, c, n) == row_window_sum(
            transposed(t, width, height),
            height,
            radius,
            y,
            x,
            c,
            n,
        ),
    decreases n,
{
    if n > 0 {
        lemma_column_sum_is_transposed_row_sum(t, width, height, radius, x, y, c, (n - 1) as nat);
        lemma_transposed_at(t, width, height, clamp(y + (n - 1) - radius, 0, height - 1), x, c);
    }
}

/// One more pass of the blur is a row pass, a transposition, a row pass of
/// the transposed image with the same radius, and a transposition back; no
/// pass at all leaves the image as it is.
pub proof fn lemma_blur_pass_by_rows(s: Seq<u8>, width: int, height: int, radius: int, n: nat)
    requires
        0 < width,
        0 < height,
        s.len() == image_len(width, height),
    ensures
        box_blurred(s, width, height, radius, 0) == s,
        box_blurred(s, width, height, radius, n + 1) == transposed(
            blurred_rows(
                transposed(
                    blurred_rows(box_blurred(s, width, height, radius, n), width, radius),
                    width,
                    height,
                ),
                height,
                radius,
            ),
            height,
            width,
        ),
{
    lemma_box_blurred_len(s, width, height, radius, n);
    let p = box_blurred(s, width, height, radius, n);
    lemma_column_pass_is_transposed_row_pass(blurred_rows(p, width, radius), width, height, radius);
    assert(box_blurred(s, width, height, radius, n + 1) == box_blur_pass(p, width, height, radius));
}

proof fn lemma_rows_of_one_column(s: Seq<u8>, height: int, radius: int)
    requires
        0 < height,
        0 <= radius,
        s.len() == image_len(1, height),
    ensures
        blurred_rows(s, 1, radius) == s,
{
    let r = blurred_rows(s, 1, radius);
    assert forall|x: int, y: int, c: int| in_image(1, height, x, y, c) implies #[trigger] r[pixel_index(1, x, y, c)]
        == s[pixel_index(1, x, y, c)] by {
        lemma_blurred_rows_at(s, 1, height, radius, x, y, c);
        lemma_row_sum_one_column(s, radius, y, c, kernel_size(radius) as nat);
        lemma_mean_of_constant(s[pixel_index(1, 0, y, c)] as int, radius);
    }
    lemma_equal_by_pixels(r, s, 1, height);
}

proof fn lemma_row_sum_one_column(s: Seq<u8>, radius: int, y: int, c: int, n: nat)
    ensures
        row_window_sum(s, 1, radius, 0, y, c, n) == n * s[pixel_index(1, 0, y, c)],
    decreases n,
{
    if n > 0 {
        lemma_row_sum_one_column(s, radius, y, c, (n - 1) as nat);
        assert((n - 1) * s[pixel_index(1, 0, y, c)] + s[pixel_index(1, 0, y, c)] == n * s[pixel_index(
            1,
            0,
            y,
            c,
        )]) by (nonlinear_arith);
    } else {
        assert(0 * s[pixel_index(1, 0, y, c)] == 0) by (nonlinear_arith);
    }
}

proof fn lemma_column_sum_one_row(s: Seq<u8>, width: int, radius: int, x: int, c: int, n: nat)
    ensures
        column_window_sum(s, width, 1, radius, x, 0, c, n) == n * s[pixel_index(width, x, 0, c)],
    decreases n,
{
    if n > 0 {
        lemma_column_sum_one_row(s, width, radius, x, c, (n - 1) as nat);
        assert((n - 1) * s[pixel_index(width, x, 0, c)] + s[pixel_index(width, x, 0, c)] == n
            * s[pixel_index(width, x, 0, c)]) by (nonlinear_arith);
    } else {
        assert(0 * s[pixel_index(width, x, 0, c)] == 0) by (nonlinear_arith);
    }
}

proof fn lemma_columns_of_one_row(s: Seq<u8>, width: int, radius: int)
    requires
        0 < width,
        0 <= radius,
        s.len() == image_len(width, 1),
    ensures
        blurred_columns(s, width, 1, radius) == s,
{
    let b = blurred_columns(s, width, 1, radius);
    assert forall|x: int, y: int, c: int| in_image(width, 1, x, y, c) implies #[trigger] b[pixel_index(width, x, y, c)]
        == s[pixel_index(width, x, y, c)] by {
        lemma_blurred_columns_at(s, width, 1, radius, x, y, c);
        lemma_column_sum_one_row(s, width, radius, x, c, kernel_size(radius) as nat);
        lemma_mean_of_constant(s[pixel_index(width, x, 0, c)] as int, radius);
    }
    lemma_equal_by_pixels(b, s, width, 1);
}

proof fn lemma_column_pass_of_one_column(s: Seq<u8>, n: int, radius: int)
    requires
        0 < n,
        s.len() == image_len(1, n),
    ensures
        blurred_columns(s, 1, n, radius) == blurred_rows(s, n, radius),
{
    let a = blurred_columns(s, 1, n, radius);
    let b = blurred_rows(s, n, radius);
    assert(image_len(1, n) == image_len(n, 1)) by (nonlinear_arith);
    assert forall|x: int, y: int, c: int| in_image(1, n, x, y, c) implies #[trigger] a[pixel_index(1, x, y, c)]
        == b[pixel_index(1, x, y, c)] by {
        assert(pixel_index(1, 0, y, c) == pixel_index(n, y, 0, c)) by (nonlinear_arith);
        lemma_blurred_columns_at(s, 1, n, radius, 0, y, c);
        lemma_blurred_rows_at(s, n, 1, radius, y, 0, c);
        lemma_one_column_sum_is_row_sum(s, n, radius, y, c, kernel_size(radius) as nat);
    }
    lemma_equal_by_pixels(a, b, 1, n);
}

proof fn lemma_one_column_sum_is_row_sum(s: Seq<u8>, n: int, radius: int, y: int, c: int, k: nat)
    requires
        0 <= y < n,
    ensures
        column_window_sum(s, 1, n, radius, 0, y, c, k) == row_window_sum(s, n, radius, y, 0, c, k),
    decreases k,
{
    if k > 0 {
        lemma_one_column_sum_is_row_sum(s, n, radius, y, c, (k - 1) as nat);
        let j = clamp(y + (k - 1) - radius, 0, n - 1);
        assert(pixel_index(1, 0, j, c) == pixel_index(n, j, 0, c)) by (nonlinear_arith);
    }
}

/// A single column of pixels is blurred exactly as the single row of the same
/// pixels: a `1` by `n` image and an `n` by `1` image with the same bytes give
/// the same bytes, whatever the radius and the number of passes.
pub proof fn lemma_one_column_blurs_like_one_row(
    s: Seq<u8>,
    n: int,
    radius: int,
    passes: nat,
)
    requires
        0 < n,
        0 <= radius,
        s.len() == 4 * n,
    ensures
        box_blurred(s, 1, n, radius, passes) == box_blurred(s, n, 1, radius, passes),
    decreases passes,
{
    assert(image_len(1, n) == 4 * n && image_len(n, 1) == 4 * n) by (nonlinear_arith);
    if passes > 0 {
        lemma_one_column_blurs_like_one_row(s, n, radius, (passes - 1) as nat);
        let p = box_blurred(s, 1, n, radius, (passes - 1) as nat);
        lemma_box_blurred_len(s, 1, n, radius, (passes - 1) as nat);
        lemma_rows_of_one_column(p, n, radius);
        lemma_column_pass_of_one_column(p, n, radius);
        lemma_columns_of_one_row(blurred_rows(p, n, radius), n, radius);
    }
}

/// Every byte of a row pass is the integer nearest to the mean of its row
/// window: the window sum lies within `radius` of the kernel size times the
/// byte.
pub proof fn lemma_row_pass_is_nearest_mean(
    s: Seq<u8>,
    width: int,
    height: int,
    radius: int,
    x: int,
    y: int,
    c: int,
)
    requires
        0 <= radius,
        s.len() == image_len(width, height),
        in_image(width, height, x, y, c),
    ensures
        ({
            let out = blurred_rows(s, width, radius)[pixel_index(width, x, y, c)] as int;
            let sum = row_window_sum(s, width, radius, x, y, c, kernel_size(radius) as nat);
            &&& kernel_size(radius) * out - radius <= sum
            &&& sum <= kernel_size(radius) * out + radius
        }),
{
    let k = kernel_size(radius);
    let sum = row_window_sum(s, width, radius, x, y, c, k as nat);
    lemma_blurred_rows_at(s, width, height, radius, x, y, c);
    lemma_row_sum_bounds(s, width, radius, x, y, c, k as nat);
    lemma_mean_fits(sum, radius);
    let q = (sum + radius) / k;
    vstd::arithmetic::div_mod::lemma_fundamental_div_mod(sum + radius, k);
    vstd::arithmetic::div_mod::lemma_mod_pos_bound(sum + radius, k);
    assert(k * q <= sum + radius < k * q + k);
}

proof fn lemma_row_sum_bounds(s: Seq<u8>, width: int, radius: int, x: int, y: int, c: int, n: nat)
    ensures
        0 <= row_window_sum(s, width, radius, x, y, c, n) <= 255 * n,
    decreases n,
{
    if n > 0 {
        lemma_row_sum_bounds(s, width, radius, x, y, c, (n - 1) as nat);
    }
}

} // verus!
