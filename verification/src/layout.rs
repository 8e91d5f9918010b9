//! How an RGBA8 image lies in its byte buffer: row-major, four channels
//! per pixel, one byte per channel.

use vstd::prelude::*;
use vstd::arithmetic::div_mod::lemma_fundamental_div_mod;
use vstd::arithmetic::div_mod::lemma_fundamental_div_mod_converse;

verus! {

/// Bytes per pixel: red, green, blue, alpha.
pub const CHANNELS: usize = 4;

/// Number of bytes in the buffer of a `width` × `height` image.
pub open spec fn buffer_len(width: int, height: int) -> int {
    width * height * 4
}

/// Position in the buffer of channel `c` of the pixel in column `x`, row `y`.
pub open spec fn offset(width: int, x: int, y: int, c: int) -> int {
    (y * width + x) * 4 + c
}

/// Column of the pixel that byte `i` belongs to.
pub open spec fn column_of(width: int, i: int) -> int {
    (i / 4) % width
}

/// Row of the pixel that byte `i` belongs to.
pub open spec fn row_of(width: int, i: int) -> int {
    (i / 4) / width
}

/// Channel that byte `i` holds.
pub open spec fn channel_of(i: int) -> int {
    i % 4
}

/// A byte addressed by coordinates inside the image lies inside the buffer.
pub proof fn lemma_offset_in_buffer(width: int, height: int, x: int, y: int, c: int)
    requires
        0 <= x < width,
        0 <= y < height,
        0 <= c < 4,
    ensures
        0 <= offset(width, x, y, c) < buffer_len(width, height),
{
    assert(0 <= y * width && y * width + width <= height * width) by (nonlinear_arith)
        requires
            0 <= y < height,
            0 < width,
    ;
    assert(height * width == width * height) by (nonlinear_arith);
}

/// Coordinates are recovered from the position they address.
pub proof fn lemma_offset_parts(width: int, x: int, y: int, c: int)
    requires
        0 <= x < width,
        0 <= y,
        0 <= c < 4,
    ensures
        column_of(width, offset(width, x, y, c)) == x,
        row_of(width, offset(width, x, y, c)) == y,
        channel_of(offset(width, x, y, c)) == c,
{
    let p = y * width + x;
    assert(offset(width, x, y, c) / 4 == p);
    lemma_fundamental_div_mod_converse(p, width, y, x);
}

/// Every position in the buffer is addressed by the coordinates read off it.
pub proof fn lemma_parts_offset(width: int, height: int, i: int)
    requires
        0 <= i < buffer_len(width, height),
        0 <= width,
        0 <= height,
    ensures
        0 <= column_of(width, i) < width,
        0 <= row_of(width, i) < height,
        0 <= channel_of(i) < 4,
        offset(width, column_of(width, i), row_of(width, i), channel_of(i)) == i,
{
    assert(width > 0) by (nonlinear_arith)
        requires
            0 <= width,
            0 < width * height * 4,
    ;
    let p = i / 4;
    assert(0 <= p < width * height);
    lemma_fundamental_div_mod(p, width);
    let q = p / width;
    let r = p % width;
    assert(0 <= r < width);
    assert(0 <= q < height) by (nonlinear_arith)
        requires
            p == width * q + r,
            0 <= r < width,
            0 <= p < width * height,
            0 < width,
    ;
    assert(width * q == q * width) by (nonlinear_arith);
}

/// Position of the first byte of the pixel in column `x`, row `y`.
pub fn pixel_offset(width: u32, height: u32, x: u32, y: u32) -> (idx: usize)
    requires
        x < width,
        y < height,
        buffer_len(width as int, height as int) <= usize::MAX,
    ensures
        idx == offset(width as int, x as int, y as int, 0),
        idx + 4 <= buffer_len(width as int, height as int),
{
    proof {
        lemma_offset_in_buffer(width as int, height as int, x as int, y as int, 3);
        assert(0 <= y * width) by (nonlinear_arith)
            requires
                0 <= y,
                0 <= width,
        ;
    }
    (y as usize * width as usize + x as usize) * CHANNELS
}

} // verus!
