//! The flat-buffer pixel model shared by all kernels: a row-major RGBA image
//! is a byte sequence of length `4 * width * height`, and a packed 32-bit
//! color decomposes into four byte channels.

use vstd::arithmetic::div_mod::lemma_fundamental_div_mod;
use vstd::arithmetic::div_mod::lemma_fundamental_div_mod_converse;
use vstd::arithmetic::div_mod::lemma_mod_pos_bound;
use vstd::arithmetic::div_mod::lemma_div_pos_is_pos;
use vstd::prelude::*;

verus! {

/// The byte sequence is a well-formed row-major RGBA image of the given size.
pub open spec fn is_image(data: Seq<u8>, w: int, h: int) -> bool {
    data.len() == 4 * w * h
}

/// Flat index of channel `c` (0 = R, 1 = G, 2 = B, 3 = A) of the pixel in
/// column `x`, row `y`.
pub open spec fn byte_index(w: int, x: int, y: int, c: int) -> int {
    4 * (y * w + x) + c
}

/// A channel value of a pixel, read as a mathematical integer.
pub open spec fn chan(data: Seq<u8>, w: int, x: int, y: int, c: int) -> int {
    data[byte_index(w, x, y, c)] as int
}

/// Red byte of a packed color `(r << 24) | (g << 16) | (b << 8) | a`.
pub open spec fn color_r(color: u32) -> u8 {
    ((color >> 24) & 0xFF) as u8
}

/// Green byte of a packed color.
pub open spec fn color_g(color: u32) -> u8 {
    ((color >> 16) & 0xFF) as u8
}

/// Blue byte of a packed color.
pub open spec fn color_b(color: u32) -> u8 {
    ((color >> 8) & 0xFF) as u8
}

/// Alpha byte of a packed color.
pub open spec fn color_a(color: u32) -> u8 {
    (color & 0xFF) as u8
}

/// A pixel index `y * w + x` stays below `w * h`, so every channel index of
/// an in-bounds pixel stays below `4 * w * h`.
pub proof fn lemma_pixel_bounds(w: int, h: int, x: int, y: int)
    requires
        0 <= x < w,
        0 <= y < h,
    ensures
        0 <= y * w + x < w * h,
{
    assert(0 <= y * w + x < w * h) by (nonlinear_arith)
        requires
            0 <= x < w,
            0 <= y < h,
    ;
}

/// Bounds for a full channel index of an in-bounds pixel.
pub proof fn lemma_byte_index_bounds(w: int, h: int, x: int, y: int, c: int)
    requires
        0 <= x < w,
        0 <= y < h,
        0 <= c < 4,
    ensures
        0 <= y * w + x < w * h,
        0 <= byte_index(w, x, y, c) < 4 * w * h,
{
    lemma_pixel_bounds(w, h, x, y);
    assert(4 * (w * h) == 4 * w * h) by (nonlinear_arith);
}

/// Two distinct in-bounds pixel coordinates have distinct pixel indices.
pub proof fn lemma_pixel_index_injective(w: int, x1: int, y1: int, x2: int, y2: int)
    requires
        0 < w,
        0 <= x1 < w,
        0 <= y1,
        0 <= x2 < w,
        0 <= y2,
        y1 * w + x1 == y2 * w + x2,
    ensures
        x1 == x2,
        y1 == y2,
{
    lemma_fundamental_div_mod_converse(y1 * w + x1, w, y1, x1);
    lemma_fundamental_div_mod_converse(y2 * w + x2, w, y2, x2);
}

/// A channel index decomposes back into its pixel coordinates and channel.
pub proof fn lemma_byte_index_decomp(w: int, x: int, y: int, c: int)
    requires
        0 < w,
        0 <= x < w,
        0 <= y,
        0 <= c < 4,
    ensures
        byte_index(w, x, y, c) / 4 == y * w + x,
        byte_index(w, x, y, c) % 4 == c,
        (byte_index(w, x, y, c) / 4) % w == x,
        (byte_index(w, x, y, c) / 4) / w == y,
{
    lemma_fundamental_div_mod_converse(byte_index(w, x, y, c), 4, y * w + x, c);
    lemma_fundamental_div_mod_converse(y * w + x, w, y, x);
}

/// Every index below `4 * w * h` is the channel index of one in-bounds pixel.
pub proof fn lemma_byte_index_recomp(w: int, h: int, i: int)
    requires
        0 < w,
        0 < h,
        0 <= i < 4 * w * h,
    ensures
        ({
            let x = (i / 4) % w;
            let y = (i / 4) / w;
            let c = i % 4;
            0 <= x < w && 0 <= y < h && 0 <= c < 4 && i == byte_index(w, x, y, c)
        }),
{
    lemma_fundamental_div_mod(i, 4);
    lemma_mod_pos_bound(i, 4);
    lemma_div_pos_is_pos(i, 4);
    let q = i / 4;
    assert(q < w * h) by (nonlinear_arith)
        requires
            i == 4 * q + (i % 4),
            0 <= i % 4,
            i < 4 * w * h,
    ;
    lemma_fundamental_div_mod(q, w);
    lemma_mod_pos_bound(q, w);
    lemma_div_pos_is_pos(q, w);
    let x = q % w;
    let y = q / w;
    assert(y < h) by (nonlinear_arith)
        requires
            q == w * y + x,
            0 <= x,
            q < w * h,
            0 < w,
            0 <= y,
    ;
    assert(y * w + x == q) by (nonlinear_arith)
        requires
            q == w * y + x,
    ;
}

} // verus!
