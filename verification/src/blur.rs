//! Separable box blur: a horizontal then a vertical one-dimensional mean
//! filter over an RGBA buffer.  Each output channel is the truncating integer
//! mean of the channel over an inclusive window clamped to the image edge, so
//! the window shrinks near the border instead of wrapping or zero-padding.

use crate::grid::byte_index;
use crate::grid::chan;
use crate::grid::is_image;
use crate::grid::lemma_byte_index_bounds;
use crate::grid::lemma_byte_index_decomp;
use crate::grid::lemma_byte_index_recomp;
use vstd::arithmetic::div_mod::lemma_div_is_ordered;
use vstd::arithmetic::div_mod::lemma_div_multiples_vanish;
use vstd::arithmetic::div_mod::lemma_div_pos_is_pos;
use vstd::prelude::*;

verus! {

/// Lower edge of the inclusive averaging window centred at `x`, clamped at 0.
pub open spec fn win_lo(x: int, r: int) -> int {
    if x - r < 0 {
        0
    } else {
        x - r
    }
}

/// Upper edge of the window, clamped at `n - 1`, where `n` is the extent of
/// the axis being averaged over.
pub open spec fn win_hi(x: int, r: int, n: int) -> int {
    if x + r > n - 1 {
        n - 1
    } else {
        x + r
    }
}

/// Sum of channel `c` over the run of pixels `(lo ..= hi, y)` of one row.
pub open spec fn row_sum(data: Seq<u8>, w: int, y: int, c: int, lo: int, hi: int) -> int
    decreases hi - lo + 1,
{
    if hi < lo {
        0
    } else {
        row_sum(data, w, y, c, lo, hi - 1) + chan(data, w, hi, y, c)
    }
}

/// Sum of channel `c` over the run of pixels `(x, lo ..= hi)` of one column.
pub open spec fn col_sum(data: Seq<u8>, w: int, x: int, c: int, lo: int, hi: int) -> int
    decreases hi - lo + 1,
{
    if hi < lo {
        0
    } else {
        col_sum(data, w, x, c, lo, hi - 1) + chan(data, w, x, hi, c)
    }
}

/// Horizontally blurred channel value: the truncating mean of the channel
/// over the clamped window of the pixel's row.
pub open spec fn h_mean(data: Seq<u8>, w: int, r: int, x: int, y: int, c: int) -> int {
    row_sum(data, w, y, c, win_lo(x, r), win_hi(x, r, w)) / (win_hi(x, r, w) - win_lo(x, r) + 1)
}

/// Vertically blurred channel value, over the clamped window of the column.
pub open spec fn v_mean(data: Seq<u8>, w: int, h: int, r: int, x: int, y: int, c: int) -> int {
    col_sum(data, w, x, c, win_lo(y, r), win_hi(y, r, h)) / (win_hi(y, r, h) - win_lo(y, r) + 1)
}

/// The whole horizontal pass as a buffer of the same length.
pub open spec fn h_pass(data: Seq<u8>, w: int, h: int, r: int) -> Seq<u8> {
    Seq::new((4 * w * h) as nat, |i: int| h_mean(data, w, r, (i / 4) % w, (i / 4) / w, i % 4) as u8)
}

/// The whole vertical pass as a buffer of the same length.
pub open spec fn v_pass(data: Seq<u8>, w: int, h: int, r: int) -> Seq<u8> {
    Seq::new(
        (4 * w * h) as nat,
        |i: int| v_mean(data, w, h, r, (i / 4) % w, (i / 4) / w, i % 4) as u8,
    )
}

/// The separable box blur: the horizontal pass followed by the vertical pass.
pub open spec fn blur_spec(data: Seq<u8>, w: int, h: int, r: int) -> Seq<u8> {
    v_pass(h_pass(data, w, h, r), w, h, r)
}

/// A row run sum of byte channels lies between 0 and 255 per pixel summed.
pub proof fn lemma_row_sum_bounds(data: Seq<u8>, w: int, y: int, c: int, lo: int, hi: int)
    requires
        lo <= hi + 1,
    ensures
        0 <= row_sum(data, w, y, c, lo, hi) <= 255 * (hi + 1 - lo),
    decreases hi - lo + 1,
{
    if hi >= lo {
        lemma_row_sum_bounds(data, w, y, c, lo, hi - 1);
    }
}

/// A column run sum of byte channels lies between 0 and 255 per pixel summed.
pub proof fn lemma_col_sum_bounds(data: Seq<u8>, w: int, x: int, c: int, lo: int, hi: int)
    requires
        lo <= hi + 1,
    ensures
        0 <= col_sum(data, w, x, c, lo, hi) <= 255 * (hi + 1 - lo),
    decreases hi - lo + 1,
{
    if hi >= lo {
        lemma_col_sum_bounds(data, w, x, c, lo, hi - 1);
    }
}

/// The truncating mean of at most 255 per sample lies in a byte's range.
pub proof fn lemma_mean_bounds(s: int, n: int)
    requires
        0 < n,
        0 <= s <= 255 * n,
    ensures
        0 <= s / n <= 255,
{
    lemma_div_pos_is_pos(s, n);
    lemma_div_is_ordered(s, 255 * n, n);
    lemma_div_multiples_vanish(255, n);
}

/// Reading the horizontal pass at a channel index gives the channel's mean.
pub proof fn lemma_h_pass_at(data: Seq<u8>, w: int, h: int, r: int, x: int, y: int, c: int)
    requires
        0 <= x < w,
        0 <= y < h,
        0 <= c < 4,
    ensures
        h_pass(data, w, h, r)[byte_index(w, x, y, c)] == h_mean(data, w, r, x, y, c) as u8,
{
    lemma_byte_index_bounds(w, h, x, y, c);
    lemma_byte_index_decomp(w, x, y, c);
}

/// Reading the vertical pass at a channel index gives the channel's mean.
pub proof fn lemma_v_pass_at(data: Seq<u8>, w: int, h: int, r: int, x: int, y: int, c: int)
    requires
        0 <= x < w,
        0 <= y < h,
        0 <= c < 4,
    ensures
        v_pass(data, w, h, r)[byte_index(w, x, y, c)] == v_mean(data, w, h, r, x, y, c) as u8,
{
    lemma_byte_index_bounds(w, h, x, y, c);
    lemma_byte_index_decomp(w, x, y, c);
}

/// With radius 0 the horizontal pass returns its input unchanged.
pub proof fn lemma_h_pass_zero(data: Seq<u8>, w: int, h: int)
    requires
        0 <= w,
        0 <= h,
        is_image(data, w, h),
    ensures
        h_pass(data, w, h, 0) == data,
{
    assert forall|i: int| 0 <= i < data.len() implies h_pass(data, w, h, 0)[i] == data[i] by {
        assert(0 < w && 0 < h) by (nonlinear_arith)
            requires
                0 <= w,
                0 <= h,
                0 < 4 * w * h,
        ;
        lemma_byte_index_recomp(w, h, i);
        let x = (i / 4) % w;
        let y = (i / 4) / w;
        let c = i % 4;
        assert(row_sum(data, w, y, c, x, x - 1) == 0);
        assert(row_sum(data, w, y, c, x, x) == chan(data, w, x, y, c));
        lemma_div_multiples_vanish(chan(data, w, x, y, c), 1);
    }
    assert(h_pass(data, w, h, 0) =~= data);
}

/// With radius 0 the vertical pass returns its input unchanged.
pub proof fn lemma_v_pass_zero(data: Seq<u8>, w: int, h: int)
    requires
        0 <= w,
        0 <= h,
        is_image(data, w, h),
    ensures
        v_pass(data, w, h, 0) == data,
{
    assert forall|i: int| 0 <= i < data.len() implies v_pass(data, w, h, 0)[i] == data[i] by {
        assert(0 < w && 0 < h) by (nonlinear_arith)
            requires
                0 <= w,
                0 <= h,
                0 < 4 * w * h,
        ;
        lemma_byte_index_recomp(w, h, i);
        let x = (i / 4) % w;
        let y = (i / 4) / w;
        let c = i % 4;
        assert(col_sum(data, w, x, c, y, y - 1) == 0);
        assert(col_sum(data, w, x, c, y, y) == chan(data, w, x, y, c));
        lemma_div_multiples_vanish(chan(data, w, x, y, c), 1);
    }
    assert(v_pass(data, w, h, 0) =~= data);
}

/// A blur of radius 0 is the identity.
pub proof fn lemma_blur_zero(data: Seq<u8>, w: int, h: int)
    requires
        0 <= w,
        0 <= h,
        is_image(data, w, h),
    ensures
        blur_spec(data, w, h, 0) == data,
{
    lemma_h_pass_zero(data, w, h);
    lemma_v_pass_zero(data, w, h);
}

/// The horizontal pass, written out with the clamped window recomputed for
/// every pixel.
#[verifier::loop_isolation(false)]
fn horizontal_pass(data: &Vec<u8>, width: u32, height: u32, radius: u32) -> (out: Vec<u8>)
    requires
        is_image(data@, width as int, height as int),
    ensures
        out@ == h_pass(data@, width as int, height as int, radius as int),
{
    let buf_len = data.len();
    let w = width as usize;
    let h = height as usize;
    let r = radius as usize;
    let ghost gw = width as int;
    let ghost gh = height as int;
    let ghost gr = radius as int;
    let ghost target = h_pass(data@, gw, gh, gr);
    let mut out: Vec<u8> = Vec::new();
    let mut y: usize = 0;
    while y < h
        invariant
            y <= h,
            out@.len() == 4 * ((y as int) * gw),
            forall|i: int| 0 <= i < out@.len() ==> out@[i] == target[i],
        decreases h - y,
    {
        let mut x: usize = 0;
        while x < w
            invariant
                y < h,
                x <= w,
                out@.len() == 4 * ((y as int) * gw + x as int),
                forall|i: int| 0 <= i < out@.len() ==> out@[i] == target[i],
            decreases w - x,
        {
            let lo: usize = if x >= r {
                x - r
            } else {
                0
            };
            let hi: usize = if w - 1 - x >= r {
                x + r
            } else {
                w - 1
            };
            let count: u64 = (hi - lo + 1) as u64;
            assert(lo as int == win_lo(x as int, gr));
            assert(hi as int == win_hi(x as int, gr, gw));
            let mut s0: u64 = 0;
            let mut s1: u64 = 0;
            let mut s2: u64 = 0;
            let mut s3: u64 = 0;
            let mut nx: usize = lo;
            while nx <= hi
                invariant
                    y < h,
                    x < w,
                    lo <= nx <= hi + 1,
                    lo <= x <= hi < w,
                    s0 == row_sum(data@, gw, y as int, 0, lo as int, nx as int - 1),
                    s1 == row_sum(data@, gw, y as int, 1, lo as int, nx as int - 1),
                    s2 == row_sum(data@, gw, y as int, 2, lo as int, nx as int - 1),
                    s3 == row_sum(data@, gw, y as int, 3, lo as int, nx as int - 1),
                decreases hi + 1 - nx,
            {
                proof {
                    lemma_byte_index_bounds(gw, gh, nx as int, y as int, 3);
                    lemma_row_sum_bounds(data@, gw, y as int, 0, lo as int, nx as int - 1);
                    lemma_row_sum_bounds(data@, gw, y as int, 1, lo as int, nx as int - 1);
                    lemma_row_sum_bounds(data@, gw, y as int, 2, lo as int, nx as int - 1);
                    lemma_row_sum_bounds(data@, gw, y as int, 3, lo as int, nx as int - 1);
                }
                proof {
                    assert(4 * (gw * gh) == 4 * gw * gh) by (nonlinear_arith);
                    assert(4 * ((y as int) * gw + nx as int) <= buf_len as int);
                }
                let base: usize = 4 * (y * w + nx);
                s0 = s0 + data[base] as u64;
                s1 = s1 + data[base + 1] as u64;
                s2 = s2 + data[base + 2] as u64;
                s3 = s3 + data[base + 3] as u64;
                nx = nx + 1;
            }
            proof {
                lemma_row_sum_bounds(data@, gw, y as int, 0, lo as int, hi as int);
                lemma_row_sum_bounds(data@, gw, y as int, 1, lo as int, hi as int);
                lemma_row_sum_bounds(data@, gw, y as int, 2, lo as int, hi as int);
                lemma_row_sum_bounds(data@, gw, y as int, 3, lo as int, hi as int);
                lemma_mean_bounds(s0 as int, count as int);
                lemma_mean_bounds(s1 as int, count as int);
                lemma_mean_bounds(s2 as int, count as int);
                lemma_mean_bounds(s3 as int, count as int);
                lemma_h_pass_at(data@, gw, gh, gr, x as int, y as int, 0);
                lemma_h_pass_at(data@, gw, gh, gr, x as int, y as int, 1);
                lemma_h_pass_at(data@, gw, gh, gr, x as int, y as int, 2);
                lemma_h_pass_at(data@, gw, gh, gr, x as int, y as int, 3);
                lemma_byte_index_bounds(gw, gh, x as int, y as int, 3);
            }
            out.push((s0 / count) as u8);
            out.push((s1 / count) as u8);
            out.push((s2 / count) as u8);
            out.push((s3 / count) as u8);
            x = x + 1;
        }
        proof {
            assert(((y as int) + 1) * gw == (y as int) * gw + gw) by (nonlinear_arith);
        }
        y = y + 1;
    }
    proof {
        assert(gh * gw == gw * gh) by (nonlinear_arith);
        assert(4 * (gw * gh) == 4 * gw * gh) by (nonlinear_arith);
        assert(out@ =~= target);
    }
    out
}

/// The vertical pass: the same mean filter along each column.
#[verifier::loop_isolation(false)]
fn vertical_pass(data: &Vec<u8>, width: u32, height: u32, radius: u32) -> (out: Vec<u8>)
    requires
        is_image(data@, width as int, height as int),
    ensures
        out@ == v_pass(data@, width as int, height as int, radius as int),
{
    let buf_len = data.len();
    let w = width as usize;
    let h = height as usize;
    let r = radius as usize;
    let ghost gw = width as int;
    let ghost gh = height as int;
    let ghost gr = radius as int;
    let ghost target = v_pass(data@, gw, gh, gr);
    let mut out: Vec<u8> = Vec::new();
    let mut y: usize = 0;
    while y < h
        invariant
            y <= h,
            out@.len() == 4 * ((y as int) * gw),
            forall|i: int| 0 <= i < out@.len() ==> out@[i] == target[i],
        decreases h - y,
    {
        let mut x: usize = 0;
        while x < w
            invariant
                y < h,
                x <= w,
                out@.len() == 4 * ((y as int) * gw + x as int),
                forall|i: int| 0 <= i < out@.len() ==> out@[i] == target[i],
            decreases w - x,
        {
            let lo: usize = if y >= r {
                y - r
            } else {
                0
            };
            let hi: usize = if h - 1 - y >= r {
                y + r
            } else {
                h - 1
            };
            let count: u64 = (hi - lo + 1) as u64;
            assert(lo as int == win_lo(y as int, gr));
            assert(hi as int == win_hi(y as int, gr, gh));
            let mut s0: u64 = 0;
            let mut s1: u64 = 0;
            let mut s2: u64 = 0;
            let mut s3: u64 = 0;
            let mut ny: usize = lo;
            while ny <= hi
                invariant
                    y < h,
                    x < w,
                    lo <= ny <= hi + 1,
                    lo <= y <= hi < h,
                    s0 == col_sum(data@, gw, x as int, 0, lo as int, ny as int - 1),
                    s1 == col_sum(data@, gw, x as int, 1, lo as int, ny as int - 1),
                    s2 == col_sum(data@, gw, x as int, 2, lo as int, ny as int - 1),
                    s3 == col_sum(data@, gw, x as int, 3, lo as int, ny as int - 1),
                decreases hi + 1 - ny,
            {
                proof {
                    lemma_byte_index_bounds(gw, gh, x as int, ny as int, 3);
                    lemma_col_sum_bounds(data@, gw, x as int, 0, lo as int, ny as int - 1);
                    lemma_col_sum_bounds(data@, gw, x as int, 1, lo as int, ny as int - 1);
                    lemma_col_sum_bounds(data@, gw, x as int, 2, lo as int, ny as int - 1);
                    lemma_col_sum_bounds(data@, gw, x as int, 3, lo as int, ny as int - 1);
                }
                proof {
                    assert(4 * (gw * gh) == 4 * gw * gh) by (nonlinear_arith);
                    assert(4 * ((ny as int) * gw + x as int) <= buf_len as int);
                }
                let base: usize = 4 * (ny * w + x);
                s0 = s0 + data[base] as u64;
                s1 = s1 + data[base + 1] as u64;
                s2 = s2 + data[base + 2] as u64;
                s3 = s3 + data[base + 3] as u64;
                ny = ny + 1;
            }
            proof {
                lemma_col_sum_bounds(data@, gw, x as int, 0, lo as int, hi as int);
                lemma_col_sum_bounds(data@, gw, x as int, 1, lo as int, hi as int);
                lemma_col_sum_bounds(data@, gw, x as int, 2, lo as int, hi as int);
                lemma_col_sum_bounds(data@, gw, x as int, 3, lo as int, hi as int);
                lemma_mean_bounds(s0 as int, count as int);
                lemma_mean_bounds(s1 as int, count as int);
                lemma_mean_bounds(s2 as int, count as int);
                lemma_mean_bounds(s3 as int, count as int);
                lemma_v_pass_at(data@, gw, gh, gr, x as int, y as int, 0);
                lemma_v_pass_at(data@, gw, gh, gr, x as int, y as int, 1);
                lemma_v_pass_at(data@, gw, gh, gr, x as int, y as int, 2);
                lemma_v_pass_at(data@, gw, gh, gr, x as int, y as int, 3);
                lemma_byte_index_bounds(gw, gh, x as int, y as int, 3);
            }
            out.push((s0 / count) as u8);
            out.push((s1 / count) as u8);
            out.push((s2 / count) as u8);
            out.push((s3 / count) as u8);
            x = x + 1;
        }
        proof {
            assert(((y as int) + 1) * gw == (y as int) * gw + gw) by (nonlinear_arith);
        }
        y = y + 1;
    }
    proof {
        assert(gh * gw == gw * gh) by (nonlinear_arith);
        assert(4 * (gw * gh) == 4 * gw * gh) by (nonlinear_arith);
        assert(out@ =~= target);
    }
    out
}

/// Box blur of an RGBA buffer: the horizontal mean pass into a temporary
/// buffer, then the vertical mean pass over it.  The output has the input's
/// length, and a radius of 0 returns the input unchanged.
pub fn blur_image(data: &Vec<u8>, width: u32, height: u32, radius: u32) -> (out: Vec<u8>)
    requires
        is_image(data@, width as int, height as int),
    ensures
        out@.len() == data@.len(),
        out@ == blur_spec(data@, width as int, height as int, radius as int),
        radius == 0 ==> out@ == data@,
{
    let temp = horizontal_pass(data, width, height, radius);
    let out = vertical_pass(&temp, width, height, radius);
    proof {
        if radius == 0 {
            lemma_blur_zero(data@, width as int, height as int);
        }
    }
    out
}

} // verus!
