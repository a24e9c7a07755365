//! Drop-shadow compositor: builds an offset silhouette of the source buffer
//! recolored to the shadow color, with alpha scaled by the shadow alpha, then
//! softens it with the box blur.

use crate::blur::blur_image;
use crate::blur::blur_spec;
use crate::grid::byte_index;
use crate::grid::color_a;
use crate::grid::color_b;
use crate::grid::color_g;
use crate::grid::color_r;
use crate::grid::is_image;
use crate::grid::lemma_byte_index_bounds;
use crate::grid::lemma_byte_index_decomp;
use vstd::arithmetic::div_mod::lemma_div_is_ordered;
use vstd::arithmetic::div_mod::lemma_div_pos_is_pos;
use vstd::prelude::*;

verus! {

/// Channel `c` of the unblurred silhouette at `(x, y)`: the destination
/// samples the source at `(x - ox, y - oy)`; out-of-bounds samples give a
/// fully transparent black pixel, in-bounds ones the shadow color's RGB and
/// the source alpha scaled by the shadow alpha with truncating division.
pub open spec fn silhouette_at(
    data: Seq<u8>,
    w: int,
    h: int,
    ox: int,
    oy: int,
    color: u32,
    x: int,
    y: int,
    c: int,
) -> u8 {
    let sx = x - ox;
    let sy = y - oy;
    if 0 <= sx && sx < w && 0 <= sy && sy < h {
        if c == 0 {
            color_r(color)
        } else if c == 1 {
            color_g(color)
        } else if c == 2 {
            color_b(color)
        } else {
            ((data[byte_index(w, sx, sy, 3)] as int) * (color_a(color) as int) / 255) as u8
        }
    } else {
        0
    }
}

/// The whole unblurred silhouette as a buffer of the source's length.
pub open spec fn silhouette(data: Seq<u8>, w: int, h: int, ox: int, oy: int, color: u32) -> Seq<
    u8,
> {
    Seq::new(
        (4 * w * h) as nat,
        |i: int| silhouette_at(data, w, h, ox, oy, color, (i / 4) % w, (i / 4) / w, i % 4),
    )
}

/// What `generate_shadow` returns: the silhouette, blurred when the radius
/// is positive.
pub open spec fn shadow_spec(
    data: Seq<u8>,
    w: int,
    h: int,
    ox: int,
    oy: int,
    r: int,
    color: u32,
) -> Seq<u8> {
    if r > 0 {
        blur_spec(silhouette(data, w, h, ox, oy, color), w, h, r)
    } else {
        silhouette(data, w, h, ox, oy, color)
    }
}

/// Reading the silhouette at a channel index gives the pixel's channel.
pub proof fn lemma_silhouette_at(
    data: Seq<u8>,
    w: int,
    h: int,
    ox: int,
    oy: int,
    color: u32,
    x: int,
    y: int,
    c: int,
)
    requires
        0 <= x < w,
        0 <= y < h,
        0 <= c < 4,
    ensures
        silhouette(data, w, h, ox, oy, color)[byte_index(w, x, y, c)] == silhouette_at(
            data,
            w,
            h,
            ox,
            oy,
            color,
            x,
            y,
            c,
        ),
{
    lemma_byte_index_bounds(w, h, x, y, c);
    lemma_byte_index_decomp(w, x, y, c);
}

/// A scaled alpha `a * s / 255` with byte factors stays a byte.
proof fn lemma_scaled_alpha_bounds(a: int, s: int)
    requires
        0 <= a <= 255,
        0 <= s <= 255,
    ensures
        0 <= a * s / 255 <= 255,
{
    assert(0 <= a * s <= 255 * 255) by (nonlinear_arith)
        requires
            0 <= a <= 255,
            0 <= s <= 255,
    ;
    lemma_div_pos_is_pos(a * s, 255);
    lemma_div_is_ordered(a * s, 65025, 255);
}

/// Drop shadow of the source buffer: an offset silhouette recolored to
/// `shadow_color`, blurred by `blur_radius` when that is positive.  The
/// output has the source's length; offsets may be negative.
#[verifier::loop_isolation(false)]
pub fn generate_shadow(
    data: &Vec<u8>,
    width: u32,
    height: u32,
    offset_x: i32,
    offset_y: i32,
    blur_radius: u32,
    shadow_color: u32,
) -> (out: Vec<u8>)
    requires
        is_image(data@, width as int, height as int),
    ensures
        out@.len() == data@.len(),
        out@ == shadow_spec(
            data@,
            width as int,
            height as int,
            offset_x as int,
            offset_y as int,
            blur_radius as int,
            shadow_color,
        ),
{
    let buf_len = data.len();
    let w = width as usize;
    let h = height as usize;
    let ghost gw = width as int;
    let ghost gh = height as int;
    let ghost gox = offset_x as int;
    let ghost goy = offset_y as int;
    let ghost target = silhouette(data@, gw, gh, gox, goy, shadow_color);
    let sr: u8 = ((shadow_color >> 24) & 0xFF) as u8;
    let sg: u8 = ((shadow_color >> 16) & 0xFF) as u8;
    let sb: u8 = ((shadow_color >> 8) & 0xFF) as u8;
    let sa: u8 = (shadow_color & 0xFF) as u8;
    let mut sil: Vec<u8> = Vec::new();
    let mut y: usize = 0;
    while y < h
        invariant
            y <= h,
            sil@.len() == 4 * ((y as int) * gw),
            forall|i: int| 0 <= i < sil@.len() ==> sil@[i] == target[i],
        decreases h - y,
    {
        let mut x: usize = 0;
        while x < w
            invariant
                y < h,
                x <= w,
                sil@.len() == 4 * ((y as int) * gw + x as int),
                forall|i: int| 0 <= i < sil@.len() ==> sil@[i] == target[i],
            decreases w - x,
        {
            proof {
                lemma_byte_index_bounds(gw, gh, x as int, y as int, 3);
                lemma_silhouette_at(data@, gw, gh, gox, goy, shadow_color, x as int, y as int, 0);
                lemma_silhouette_at(data@, gw, gh, gox, goy, shadow_color, x as int, y as int, 1);
                lemma_silhouette_at(data@, gw, gh, gox, goy, shadow_color, x as int, y as int, 2);
                lemma_silhouette_at(data@, gw, gh, gox, goy, shadow_color, x as int, y as int, 3);
            }
            let src_x: i64 = x as i64 - offset_x as i64;
            let src_y: i64 = y as i64 - offset_y as i64;
            if src_x >= 0 && src_x < w as i64 && src_y >= 0 && src_y < h as i64 {
                let sx = src_x as usize;
                let sy = src_y as usize;
                proof {
                    lemma_byte_index_bounds(gw, gh, sx as int, sy as int, 3);
                    assert(4 * (gw * gh) == 4 * gw * gh) by (nonlinear_arith);
                    assert(4 * ((sy as int) * gw + sx as int) <= buf_len as int);
                }
                let src_idx: usize = 4 * (sy * w + sx);
                let src_alpha: u32 = data[src_idx + 3] as u32;
                proof {
                    lemma_scaled_alpha_bounds(src_alpha as int, sa as int);
                }
                let alpha: u8 = (src_alpha * (sa as u32) / 255) as u8;
                sil.push(sr);
                sil.push(sg);
                sil.push(sb);
                sil.push(alpha);
            } else {
                sil.push(0);
                sil.push(0);
                sil.push(0);
                sil.push(0);
            }
            x = x + 1;
        }
        proof {
            assert(((y as int) + 1) * gw == (y as int) * gw + gw) by (nonlinear_arith);
        }
        y = y + 1;
    }
    proof {
        assert(gh * gw == gw * gh) by (nonlinear_arith);
        assert(4 * (gw * gh) == 4 * gw * gh) by (nonlinear_arith);
        assert(sil@ =~= target);
    }
    if blur_radius > 0 {
        blur_image(&sil, width, height, blur_radius)
    } else {
        sil
    }
}

} // verus!
