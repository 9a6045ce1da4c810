//! Layout of a tightly packed RGBA8 image buffer.
//!
//! Pixel (`x`, `y`) of an image `width` pixels wide occupies the four bytes
//! starting at `(y * width + x) * 4`, in the order red, green, blue, alpha.
use vstd::prelude::*;

verus! {

/// Number of bytes of one RGBA8 pixel.
pub const PIXEL_BYTES: usize = 4;

/// Number of bytes in one row of an image `width` pixels wide.
pub open spec fn row_bytes(width: int) -> int {
    4 * width
}

/// Number of bytes of a whole image of `width` by `height` pixels.
pub open spec fn image_len(width: int, height: int) -> int {
    height * row_bytes(width)
}

/// Offset of channel `c` of pixel (`x`, `y`).
pub open spec fn pixel_index(width: int, x: int, y: int, c: int) -> int {
    y * row_bytes(width) + 4 * x + c
}

/// Row of the pixel that byte `i` belongs to.
pub open spec fn row_of(width: int, i: int) -> int {
    i / row_bytes(width)
}

/// Column of the pixel that byte `i` belongs to.
pub open spec fn column_of(width: int, i: int) -> int {
    (i % row_bytes(width)) / 4
}

/// Channel (0 red, 1 green, 2 blue, 3 alpha) that byte `i` holds.
pub open spec fn channel_of(width: int, i: int) -> int {
    (i % row_bytes(width)) % 4
}

/// `x`, `y`, `c` name a byte of an image of `width` by `height` pixels.
pub open spec fn in_image(width: int, height: int, x: int, y: int, c: int) -> bool {
    0 <= x < width && 0 <= y < height && 0 <= c < 4
}

/// The coordinates of a byte are recovered from its offset.
pub proof fn lemma_pixel_coords(width: int, x: int, y: int, c: int)
    requires
        0 <= x < width,
        0 <= y,
        0 <= c < 4,
    ensures
        row_of(width, pixel_index(width, x, y, c)) == y,
        column_of(width, pixel_index(width, x, y, c)) == x,
        channel_of(width, pixel_index(width, x, y, c)) == c,
{
    let rb = row_bytes(width);
    let i = pixel_index(width, x, y, c);
    let r = 4 * x + c;
    assert(i == y * rb + r);
    vstd::arithmetic::div_mod::lemma_fundamental_div_mod_converse(i, rb, y, r);
    assert(r == x * 4 + c);
    vstd::arithmetic::div_mod::lemma_fundamental_div_mod_converse(r, 4, x, c);
}

/// Every offset inside an image is the offset of one byte of one pixel.
pub proof fn lemma_index_coords(width: int, height: int, i: int)
    requires
        0 < width,
        0 <= i < image_len(width, height),
    ensures
        in_image(width, height, column_of(width, i), row_of(width, i), channel_of(width, i)),
        pixel_index(width, column_of(width, i), row_of(width, i), channel_of(width, i)) == i,
{
    let rb = row_bytes(width);
    let y = i / rb;
    let r = i % rb;
    vstd::arithmetic::div_mod::lemma_fundamental_div_mod(i, rb);
    vstd::arithmetic::div_mod::lemma_mod_pos_bound(i, rb);
    vstd::arithmetic::div_mod::lemma_div_pos_is_pos(i, rb);
    vstd::arithmetic::div_mod::lemma_fundamental_div_mod(r, 4);
    vstd::arithmetic::div_mod::lemma_mod_pos_bound(r, 4);
    vstd::arithmetic::div_mod::lemma_div_pos_is_pos(r, 4);
    assert(i == y * rb + r) by (nonlinear_arith)
        requires
            i == rb * y + r,
    ;
    if y >= height {
        vstd::arithmetic::mul::lemma_mul_inequality(height, y, rb);
        assert(height * rb <= y * rb);
        assert(image_len(width, height) == height * rb);
        assert(false);
    }
}

/// Rows of an image do not overlap, and lie in increasing order.
pub proof fn lemma_row_before(width: int, y1: int, y2: int)
    requires
        0 <= width,
        y1 < y2,
    ensures
        y1 * row_bytes(width) + row_bytes(width) <= y2 * row_bytes(width),
{
    vstd::arithmetic::mul::lemma_mul_inequality(y1 + 1, y2, row_bytes(width));
    assert((y1 + 1) * row_bytes(width) == y1 * row_bytes(width) + row_bytes(width)) by (
    nonlinear_arith);
}

/// Row `y` of an image lies inside its buffer.
pub proof fn lemma_row_inside(width: int, height: int, y: int)
    requires
        0 <= width,
        0 <= y < height,
    ensures
        0 <= y * row_bytes(width),
        y * row_bytes(width) + row_bytes(width) <= image_len(width, height),
{
    lemma_row_before(width, y, height);
    vstd::arithmetic::mul::lemma_mul_inequality(0, y, row_bytes(width));
}

/// Two images of the same size are equal when all their pixels are.
pub proof fn lemma_equal_by_pixels(a: Seq<u8>, b: Seq<u8>, width: int, height: int)
    requires
        0 < width,
        a.len() == image_len(width, height),
        b.len() == image_len(width, height),
        forall|x: int, y: int, c: int|
            in_image(width, height, x, y, c) ==> #[trigger] a[pixel_index(width, x, y, c)]
                == b[pixel_index(width, x, y, c)],
    ensures
        a == b,
{
    assert forall|i: int| 0 <= i < a.len() implies a[i] == b[i] by {
        lemma_index_coords(width, height, i);
        let x = column_of(width, i);
        let y = row_of(width, i);
        let c = channel_of(width, i);
        assert(a[pixel_index(width, x, y, c)] == b[pixel_index(width, x, y, c)]);
    }
    assert(a =~= b);
}

/// An image without columns or without rows holds no bytes.
pub proof fn lemma_empty_image(s: Seq<u8>, width: int, height: int)
    requires
        width == 0 || height == 0,
        s.len() == image_len(width, height),
    ensures
        s.len() == 0,
{
    let n = s.len() as int;
    assert(n == 0) by (nonlinear_arith)
        requires
            n == height * (4 * width),
            width == 0 || height == 0,
    ;
}

/// The image turned over its main diagonal: a `width` by `height` image
/// becomes a `height` by `width` one whose pixel (`x`, `y`) is pixel
/// (`y`, `x`) of `s`.
pub open spec fn transposed(s: Seq<u8>, width: int, height: int) -> Seq<u8> {
    Seq::new(
        s.len(),
        |i: int| s[pixel_index(width, row_of(height, i), column_of(height, i), channel_of(height, i))],
    )
}

/// A transposed image has the size of a `height` by `width` image.
pub proof fn lemma_transposed_len(s: Seq<u8>, width: int, height: int)
    requires
        s.len() == image_len(width, height),
    ensures
        transposed(s, width, height).len() == image_len(height, width),
{
    assert(image_len(width, height) == image_len(height, width)) by (nonlinear_arith);
}

/// Reading one pixel of [`transposed`].
pub proof fn lemma_transposed_at(s: Seq<u8>, width: int, height: int, x: int, y: int, c: int)
    requires
        s.len() == image_len(width, height),
        in_image(height, width, x, y, c),
    ensures
        transposed(s, width, height)[pixel_index(height, x, y, c)] == s[pixel_index(width, y, x, c)],
{
    lemma_pixel_coords(height, x, y, c);
    lemma_row_inside(height, width, y);
    lemma_transposed_len(s, width, height);
}

/// Number of bytes of a `width` by `height` RGBA8 image.
pub open spec fn data_size(width: u32, height: u32) -> int {
    width * height * 4
}

/// The number of bytes of a `width` by `height` RGBA8 image, or `None` where
/// it does not fit in a `usize`.
pub fn rgba_data_size(width: u32, height: u32) -> (size: Option<usize>)
    ensures
        data_size(width, height) <= usize::MAX ==> size == Some(data_size(width, height) as usize),
        data_size(width, height) > usize::MAX ==> size is None,
{
    let w = width as usize;
    let h = height as usize;
    let pixels = w.checked_mul(h);
    proof {
        assert(data_size(width, height) == (w * h) * 4) by (nonlinear_arith)
            requires
                w == width,
                h == height,
        ;
        if pixels is None {
            assert(w * h * 4 >= w * h) by (nonlinear_arith);
        }
    }
    match pixels {
        Some(n) => n.checked_mul(PIXEL_BYTES),
        None => None,
    }
}

} // verus!
