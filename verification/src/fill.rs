//! Tolerance-bounded, 4-connected flood fill over an RGBA buffer, driven by
//! an explicit stack rather than recursion.  The target color is the color
//! found at the start pixel; a pixel joins the region when every channel is
//! within the tolerance of the target, and every pixel of the region is
//! overwritten with the fill color.

use crate::grid::byte_index;
use crate::grid::color_a;
use crate::grid::color_b;
use crate::grid::color_g;
use crate::grid::color_r;
use crate::grid::is_image;
use crate::grid::lemma_byte_index_bounds;
use crate::grid::lemma_pixel_bounds;
use crate::grid::lemma_pixel_index_injective;
use vstd::prelude::*;

verus! {

/// Two channel bytes lie within the tolerance of one another.
pub open spec fn close(a: u8, b: u8, tol: u8) -> bool {
    (if a >= b {
        a - b
    } else {
        b - a
    }) <= tol
}

/// Every channel of the pixel at `(x, y)` is within the tolerance of the
/// target channels `t0 ..= t3`.
pub open spec fn matches_target(
    data: Seq<u8>,
    w: int,
    x: int,
    y: int,
    t0: u8,
    t1: u8,
    t2: u8,
    t3: u8,
    tol: u8,
) -> bool {
    &&& close(data[byte_index(w, x, y, 0)], t0, tol)
    &&& close(data[byte_index(w, x, y, 1)], t1, tol)
    &&& close(data[byte_index(w, x, y, 2)], t2, tol)
    &&& close(data[byte_index(w, x, y, 3)], t3, tol)
}

/// The pixel at `(x, y)` holds exactly the four given channel bytes.
pub open spec fn pixel_is(
    data: Seq<u8>,
    w: int,
    x: int,
    y: int,
    r: u8,
    g: u8,
    b: u8,
    a: u8,
) -> bool {
    &&& data[byte_index(w, x, y, 0)] == r
    &&& data[byte_index(w, x, y, 1)] == g
    &&& data[byte_index(w, x, y, 2)] == b
    &&& data[byte_index(w, x, y, 3)] == a
}

/// The pixel at `(x, y)` holds the same four bytes in both buffers.
pub open spec fn pixel_unchanged(cur: Seq<u8>, orig: Seq<u8>, w: int, x: int, y: int) -> bool {
    forall|c: int|
        0 <= c < 4 ==> cur[#[trigger] byte_index(w, x, y, c)] == orig[byte_index(w, x, y, c)]
}

/// The pixel at `(x, y)` already holds the packed color exactly.
pub open spec fn start_is_fill(data: Seq<u8>, w: int, x: int, y: int, color: u32) -> bool {
    pixel_is(data, w, x, y, color_r(color), color_g(color), color_b(color), color_a(color))
}

/// The pixel at `(x, y)` matches the color originally at `(sx, sy)`.
pub open spec fn matches_start(
    orig: Seq<u8>,
    w: int,
    x: int,
    y: int,
    sx: int,
    sy: int,
    tol: u8,
) -> bool {
    matches_target(
        orig,
        w,
        x,
        y,
        orig[byte_index(w, sx, sy, 0)],
        orig[byte_index(w, sx, sy, 1)],
        orig[byte_index(w, sx, sy, 2)],
        orig[byte_index(w, sx, sy, 3)],
        tol,
    )
}

/// After a fill, every pixel either kept its old bytes or matched the target
/// color and was overwritten with the fill color.
pub open spec fn fill_outcome(
    orig: Seq<u8>,
    cur: Seq<u8>,
    w: int,
    h: int,
    sx: int,
    sy: int,
    color: u32,
    tol: u8,
) -> bool {
    forall|x: int, y: int|
        0 <= x < w && 0 <= y < h ==> (#[trigger] pixel_unchanged(cur, orig, w, x, y)
            || (matches_start(orig, w, x, y, sx, sy, tol) && pixel_is(
            cur,
            w,
            x,
            y,
            color_r(color),
            color_g(color),
            color_b(color),
            color_a(color),
        )))
}

/// Every pixel of the buffer holds the packed color.
pub open spec fn all_filled(cur: Seq<u8>, w: int, h: int, color: u32) -> bool {
    forall|x: int, y: int|
        0 <= x < w && 0 <= y < h ==> #[trigger] pixel_is(
            cur,
            w,
            x,
            y,
            color_r(color),
            color_g(color),
            color_b(color),
            color_a(color),
        )
}

/// The entry of the visited map for the pixel at `(x, y)`.
spec fn visited_at(v: Seq<bool>, w: int, x: int, y: int) -> bool {
    v[y * w + x]
}

/// Some stack entry holds the coordinate `(x, y)`.
spec fn on_stack(s: Seq<(usize, usize)>, x: int, y: int) -> bool {
    exists|k: int| 0 <= k < s.len() && (#[trigger] s[k]).0 as int == x && s[k].1 as int == y
}

/// The coordinate `(x, y)` needs no more work: it was committed, it is still
/// queued, or it does not match the target.
spec fn settled(
    v: Seq<bool>,
    s: Seq<(usize, usize)>,
    orig: Seq<u8>,
    w: int,
    x: int,
    y: int,
    t0: u8,
    t1: u8,
    t2: u8,
    t3: u8,
    tol: u8,
) -> bool {
    ||| visited_at(v, w, x, y)
    ||| on_stack(s, x, y)
    ||| !matches_target(orig, w, x, y, t0, t1, t2, t3, tol)
}

/// All in-bounds 4-neighbors of `(x, y)` are settled.
spec fn neighbors_settled(
    v: Seq<bool>,
    s: Seq<(usize, usize)>,
    orig: Seq<u8>,
    w: int,
    h: int,
    x: int,
    y: int,
    t0: u8,
    t1: u8,
    t2: u8,
    t3: u8,
    tol: u8,
) -> bool {
    &&& x + 1 < w ==> settled(v, s, orig, w, x + 1, y, t0, t1, t2, t3, tol)
    &&& 0 < x ==> settled(v, s, orig, w, x - 1, y, t0, t1, t2, t3, tol)
    &&& y + 1 < h ==> settled(v, s, orig, w, x, y + 1, t0, t1, t2, t3, tol)
    &&& 0 < y ==> settled(v, s, orig, w, x, y - 1, t0, t1, t2, t3, tol)
}

/// The visited set is closed under in-bounds 4-adjacency.
spec fn visited_closed(v: Seq<bool>, w: int, h: int) -> bool {
    forall|x: int, y: int|
        0 <= x < w && 0 <= y < h && #[trigger] visited_at(v, w, x, y) ==> ((x + 1 < w
            ==> visited_at(v, w, x + 1, y)) && (0 < x ==> visited_at(v, w, x - 1, y)) && (y + 1 < h
            ==> visited_at(v, w, x, y + 1)) && (0 < y ==> visited_at(v, w, x, y - 1)))
}

/// How many of the first `i` entries of the visited map are still false.
spec fn unseen(v: Seq<bool>, i: int) -> nat
    decreases i,
{
    if i <= 0 {
        0
    } else {
        unseen(v, i - 1) + (if v[i - 1] {
            0nat
        } else {
            1nat
        })
    }
}

/// Two maps that agree below `i` have the same count there.
proof fn lemma_unseen_agree(v1: Seq<bool>, v2: Seq<bool>, i: int)
    requires
        forall|j: int| 0 <= j < i ==> v1[j] == v2[j],
    ensures
        unseen(v1, i) == unseen(v2, i),
    decreases i,
{
    if i > 0 {
        lemma_unseen_agree(v1, v2, i - 1);
    }
}

/// Marking one unvisited entry lowers the count by exactly one.
proof fn lemma_unseen_update(v: Seq<bool>, p: int, i: int)
    requires
        0 <= p < i <= v.len(),
        !v[p],
    ensures
        unseen(v.update(p, true), i) + 1 == unseen(v, i),
    decreases i,
{
    if p == i - 1 {
        lemma_unseen_agree(v.update(p, true), v, i - 1);
    } else {
        lemma_unseen_update(v, p, i - 1);
    }
}

/// A coordinate on the stack survives a pop, unless it was the popped entry.
proof fn lemma_on_stack_after_pop(s: Seq<(usize, usize)>, x: int, y: int)
    requires
        s.len() > 0,
        on_stack(s, x, y),
    ensures
        on_stack(s.subrange(0, s.len() - 1), x, y) || (s[s.len() - 1].0 as int == x && s[s.len()
            - 1].1 as int == y),
{
    let k = choose|k: int|
        0 <= k < s.len() && (#[trigger] s[k]).0 as int == x && s[k].1 as int == y;
    if k < s.len() - 1 {
        assert(s.subrange(0, s.len() - 1)[k] == s[k]);
    }
}

/// A coordinate on a stack is still on any stack that extends it.
proof fn lemma_on_stack_extend(s1: Seq<(usize, usize)>, s2: Seq<(usize, usize)>, x: int, y: int)
    requires
        s1.len() <= s2.len(),
        s2.subrange(0, s1.len() as int) == s1,
        on_stack(s1, x, y),
    ensures
        on_stack(s2, x, y),
{
    let k = choose|k: int|
        0 <= k < s1.len() && (#[trigger] s1[k]).0 as int == x && s1[k].1 as int == y;
    assert(s2.subrange(0, s1.len() as int)[k] == s2[k]);
}

/// In a closed visited set, being visited spreads along a row.
proof fn lemma_reach_row(v: Seq<bool>, w: int, h: int, y: int, x0: int, x1: int)
    requires
        visited_closed(v, w, h),
        0 <= y < h,
        0 <= x0 < w,
        0 <= x1 < w,
        visited_at(v, w, x0, y),
    ensures
        visited_at(v, w, x1, y),
    decreases
            (if x1 >= x0 {
                x1 - x0
            } else {
                x0 - x1
            }),
{
    if x1 > x0 {
        assert(visited_at(v, w, x0 + 1, y));
        lemma_reach_row(v, w, h, y, x0 + 1, x1);
    } else if x1 < x0 {
        assert(visited_at(v, w, x0 - 1, y));
        lemma_reach_row(v, w, h, y, x0 - 1, x1);
    }
}

/// In a closed visited set, being visited spreads along a column.
proof fn lemma_reach_col(v: Seq<bool>, w: int, h: int, x: int, y0: int, y1: int)
    requires
        visited_closed(v, w, h),
        0 <= x < w,
        0 <= y0 < h,
        0 <= y1 < h,
        visited_at(v, w, x, y0),
    ensures
        visited_at(v, w, x, y1),
    decreases
            (if y1 >= y0 {
                y1 - y0
            } else {
                y0 - y1
            }),
{
    if y1 > y0 {
        assert(visited_at(v, w, x, y0 + 1));
        lemma_reach_col(v, w, h, x, y0 + 1, y1);
    } else if y1 < y0 {
        assert(visited_at(v, w, x, y0 - 1));
        lemma_reach_col(v, w, h, x, y0 - 1, y1);
    }
}

/// A nonempty closed visited set over a connected grid is the whole grid.
proof fn lemma_reach_all(v: Seq<bool>, w: int, h: int, sx: int, sy: int)
    requires
        visited_closed(v, w, h),
        0 <= sx < w,
        0 <= sy < h,
        visited_at(v, w, sx, sy),
    ensures
        forall|x: int, y: int| 0 <= x < w && 0 <= y < h ==> visited_at(v, w, x, y),
{
    assert forall|x: int, y: int| 0 <= x < w && 0 <= y < h implies visited_at(v, w, x, y) by {
        lemma_reach_row(v, w, h, sy, sx, x);
        lemma_reach_col(v, w, h, x, sy, y);
    }
}

/// Two grid coordinates are 4-adjacent.
pub open spec fn adjacent(x1: int, y1: int, x2: int, y2: int) -> bool {
    ||| x1 == x2 && (y2 == y1 + 1 || y2 == y1 - 1)
    ||| y1 == y2 && (x2 == x1 + 1 || x2 == x1 - 1)
}

/// A coordinate a fill path may pass through: in bounds and matching the
/// start pixel's original color.
pub open spec fn path_pixel_ok(
    orig: Seq<u8>,
    w: int,
    h: int,
    sx: int,
    sy: int,
    tol: u8,
    x: int,
    y: int,
) -> bool {
    0 <= x < w && 0 <= y < h && matches_start(orig, w, x, y, sx, sy, tol)
}

/// A fill path: it starts at the start pixel, every step is 4-adjacent, and
/// every coordinate on it is in bounds and matches the target color.
pub open spec fn is_fill_path(
    p: Seq<(int, int)>,
    orig: Seq<u8>,
    w: int,
    h: int,
    sx: int,
    sy: int,
    tol: u8,
) -> bool {
    &&& p.len() > 0
    &&& p[0] == (sx, sy)
    &&& forall|k: int|
        0 <= k < p.len() ==> path_pixel_ok(orig, w, h, sx, sy, tol, (#[trigger] p[k]).0, p[k].1)
    &&& forall|k: int|
        0 < k < p.len() ==> adjacent((#[trigger] p[k]).0, p[k].1, p[k - 1].0, p[k - 1].1)
}

/// The pixel at `(x, y)` belongs to the fill region: a fill path ends there.
pub open spec fn reachable(
    orig: Seq<u8>,
    w: int,
    h: int,
    sx: int,
    sy: int,
    tol: u8,
    x: int,
    y: int,
) -> bool {
    exists|p: Seq<(int, int)>|
        is_fill_path(p, orig, w, h, sx, sy, tol) && p.last() == (x, y)
}

/// The start pixel always belongs to the region: the one-step path.
proof fn lemma_reachable_start(orig: Seq<u8>, w: int, h: int, sx: int, sy: int, tol: u8)
    requires
        0 <= sx < w,
        0 <= sy < h,
    ensures
        reachable(orig, w, h, sx, sy, tol, sx, sy),
{
    let p: Seq<(int, int)> = seq![(sx, sy)];
    assert(p[0] == (sx, sy));
    assert(is_fill_path(p, orig, w, h, sx, sy, tol));
    assert(p.last() == (sx, sy));
}

/// The region grows across one adjacency step onto a matching pixel.
proof fn lemma_reachable_step(
    orig: Seq<u8>,
    w: int,
    h: int,
    sx: int,
    sy: int,
    tol: u8,
    ax: int,
    ay: int,
    bx: int,
    by: int,
)
    requires
        reachable(orig, w, h, sx, sy, tol, ax, ay),
        adjacent(bx, by, ax, ay),
        path_pixel_ok(orig, w, h, sx, sy, tol, bx, by),
    ensures
        reachable(orig, w, h, sx, sy, tol, bx, by),
{
    let p = choose|p: Seq<(int, int)>|
        is_fill_path(p, orig, w, h, sx, sy, tol) && p.last() == (ax, ay);
    let q = p.push((bx, by));
    assert(q[0] == p[0]);
    assert forall|k: int|
        0 <= k < q.len() implies path_pixel_ok(orig, w, h, sx, sy, tol, (#[trigger] q[k]).0, q[k].1)
    by {
        if k < p.len() {
            assert(q[k] == p[k]);
        } else {
            assert(q[k] == (bx, by));
        }
    }
    assert forall|k: int|
        0 < k < q.len() implies adjacent((#[trigger] q[k]).0, q[k].1, q[k - 1].0, q[k - 1].1) by {
        if k < p.len() {
            assert(q[k] == p[k]);
            assert(q[k - 1] == p[k - 1]);
        } else {
            assert(q[k] == (bx, by));
            assert(q[k - 1] == p[p.len() - 1]);
        }
    }
    assert(is_fill_path(q, orig, w, h, sx, sy, tol));
    assert(q.last() == (bx, by));
}

/// When the stack has run empty, the visited set contains every pixel a fill
/// path can end at: the path is walked by induction, each step staying
/// inside the visited set because the set's matching neighbors are settled.
#[verifier::rlimit(50)]
proof fn lemma_path_visited(
    v: Seq<bool>,
    s: Seq<(usize, usize)>,
    orig: Seq<u8>,
    w: int,
    h: int,
    sx: int,
    sy: int,
    t0: u8,
    t1: u8,
    t2: u8,
    t3: u8,
    tol: u8,
    p: Seq<(int, int)>,
)
    requires
        s.len() == 0,
        t0 == orig[byte_index(w, sx, sy, 0)],
        t1 == orig[byte_index(w, sx, sy, 1)],
        t2 == orig[byte_index(w, sx, sy, 2)],
        t3 == orig[byte_index(w, sx, sy, 3)],
        0 <= sx < w,
        0 <= sy < h,
        visited_at(v, w, sx, sy),
        forall|x: int, y: int|
            0 <= x < w && 0 <= y < h && #[trigger] visited_at(v, w, x, y)
                ==> neighbors_settled(v, s, orig, w, h, x, y, t0, t1, t2, t3, tol),
        is_fill_path(p, orig, w, h, sx, sy, tol),
    ensures
        visited_at(v, w, (p.last()).0, (p.last()).1),
    decreases p.len(),
{
    if p.len() == 1 {
        assert(p.last() == (sx, sy));
    } else {
        let q = p.drop_last();
        assert(q[0] == p[0]);
        assert forall|k: int|
            0 <= k < q.len() implies path_pixel_ok(
            orig, w, h, sx, sy, tol, (#[trigger] q[k]).0, q[k].1) by {
            assert(q[k] == p[k]);
        }
        assert forall|k: int|
            0 < k < q.len() implies adjacent((#[trigger] q[k]).0, q[k].1, q[k - 1].0, q[k - 1].1)
        by {
            assert(q[k] == p[k]);
            assert(q[k - 1] == p[k - 1]);
        }
        assert(is_fill_path(q, orig, w, h, sx, sy, tol));
        lemma_path_visited(v, s, orig, w, h, sx, sy, t0, t1, t2, t3, tol, q);
        let a = q.last();
        let b = p.last();
        assert(a == p[p.len() - 2]);
        assert(adjacent(b.0, b.1, a.0, a.1));
        assert(path_pixel_ok(orig, w, h, sx, sy, tol, b.0, b.1));
        assert(neighbors_settled(v, s, orig, w, h, a.0, a.1, t0, t1, t2, t3, tol));
        assert(!on_stack(s, b.0, b.1));
        assert(matches_target(orig, w, b.0, b.1, t0, t1, t2, t3, tol));
        if b.0 == a.0 + 1 && b.1 == a.1 {
            assert(settled(v, s, orig, w, a.0 + 1, a.1, t0, t1, t2, t3, tol));
        } else if b.0 == a.0 - 1 && b.1 == a.1 {
            assert(settled(v, s, orig, w, a.0 - 1, a.1, t0, t1, t2, t3, tol));
        } else if b.1 == a.1 + 1 && b.0 == a.0 {
            assert(settled(v, s, orig, w, a.0, a.1 + 1, t0, t1, t2, t3, tol));
        } else {
            assert(b.1 == a.1 - 1 && b.0 == a.0);
            assert(settled(v, s, orig, w, a.0, a.1 - 1, t0, t1, t2, t3, tol));
        }
        assert(visited_at(v, w, b.0, b.1));
    }
}

/// A settled coordinate stays settled when the top of the stack is popped,
/// provided the popped coordinate itself is settled afterwards and no pixel
/// loses its visited mark.
proof fn lemma_settled_transfer(
    v_old: Seq<bool>,
    v_new: Seq<bool>,
    s_pre: Seq<(usize, usize)>,
    s_new: Seq<(usize, usize)>,
    orig: Seq<u8>,
    w: int,
    cx: int,
    cy: int,
    qx: int,
    qy: int,
    t0: u8,
    t1: u8,
    t2: u8,
    t3: u8,
    tol: u8,
)
    requires
        settled(v_old, s_pre, orig, w, qx, qy, t0, t1, t2, t3, tol),
        visited_at(v_old, w, qx, qy) ==> visited_at(v_new, w, qx, qy),
        s_pre.len() > 0,
        s_pre[s_pre.len() - 1].0 as int == cx,
        s_pre[s_pre.len() - 1].1 as int == cy,
        s_pre.len() - 1 <= s_new.len(),
        s_new.subrange(0, s_pre.len() - 1) == s_pre.subrange(0, s_pre.len() - 1),
        settled(v_new, s_new, orig, w, cx, cy, t0, t1, t2, t3, tol),
    ensures
        settled(v_new, s_new, orig, w, qx, qy, t0, t1, t2, t3, tol),
{
    if visited_at(v_old, w, qx, qy) {
    } else if on_stack(s_pre, qx, qy) {
        lemma_on_stack_after_pop(s_pre, qx, qy);
        if on_stack(s_pre.subrange(0, s_pre.len() - 1), qx, qy) {
            lemma_on_stack_extend(s_pre.subrange(0, s_pre.len() - 1), s_new, qx, qy);
        } else {
            assert(qx == cx && qy == cy);
        }
    }
}

/// One iteration's bookkeeping: popping the top of the stack keeps every
/// already-visited pixel's neighbors settled and keeps the start coordinate
/// committed or queued, as long as the popped coordinate ends up settled.
proof fn lemma_loop_maintain(
    v_old: Seq<bool>,
    v_new: Seq<bool>,
    s_pre: Seq<(usize, usize)>,
    s_new: Seq<(usize, usize)>,
    orig: Seq<u8>,
    w: int,
    h: int,
    cx: int,
    cy: int,
    sx: int,
    sy: int,
    t0: u8,
    t1: u8,
    t2: u8,
    t3: u8,
    tol: u8,
)
    requires
        0 <= cx < w,
        0 <= cy < h,
        0 <= sx < w,
        0 <= sy < h,
        s_pre.len() > 0,
        s_pre[s_pre.len() - 1].0 as int == cx,
        s_pre[s_pre.len() - 1].1 as int == cy,
        s_pre.len() - 1 <= s_new.len(),
        s_new.subrange(0, s_pre.len() - 1) == s_pre.subrange(0, s_pre.len() - 1),
        forall|x: int, y: int|
            0 <= x < w && 0 <= y < h && #[trigger] visited_at(v_old, w, x, y) ==> visited_at(
                v_new,
                w,
                x,
                y,
            ),
        settled(v_new, s_new, orig, w, cx, cy, t0, t1, t2, t3, tol),
        forall|x: int, y: int|
            0 <= x < w && 0 <= y < h && #[trigger] visited_at(v_old, w, x, y)
                ==> neighbors_settled(v_old, s_pre, orig, w, h, x, y, t0, t1, t2, t3, tol),
        visited_at(v_old, w, sx, sy) || on_stack(s_pre, sx, sy),
        matches_target(orig, w, sx, sy, t0, t1, t2, t3, tol),
    ensures
        forall|x: int, y: int|
            0 <= x < w && 0 <= y < h && #[trigger] visited_at(v_old, w, x, y)
                ==> neighbors_settled(v_new, s_new, orig, w, h, x, y, t0, t1, t2, t3, tol),
        visited_at(v_new, w, sx, sy) || on_stack(s_new, sx, sy),
{
    assert forall|x: int, y: int|
        0 <= x < w && 0 <= y < h && #[trigger] visited_at(v_old, w, x, y) implies neighbors_settled(
        v_new,
        s_new,
        orig,
        w,
        h,
        x,
        y,
        t0,
        t1,
        t2,
        t3,
        tol,
    ) by {
        assert(neighbors_settled(v_old, s_pre, orig, w, h, x, y, t0, t1, t2, t3, tol));
        if x + 1 < w {
            lemma_settled_transfer(
                v_old, v_new, s_pre, s_new, orig, w, cx, cy, x + 1, y, t0, t1, t2, t3, tol);
        }
        if 0 < x {
            lemma_settled_transfer(
                v_old, v_new, s_pre, s_new, orig, w, cx, cy, x - 1, y, t0, t1, t2, t3, tol);
        }
        if y + 1 < h {
            lemma_settled_transfer(
                v_old, v_new, s_pre, s_new, orig, w, cx, cy, x, y + 1, t0, t1, t2, t3, tol);
        }
        if 0 < y {
            lemma_settled_transfer(
                v_old, v_new, s_pre, s_new, orig, w, cx, cy, x, y - 1, t0, t1, t2, t3, tol);
        }
    }
    if !visited_at(v_new, w, sx, sy) {
        assert(!visited_at(v_old, w, sx, sy));
        assert(on_stack(s_pre, sx, sy));
        lemma_on_stack_after_pop(s_pre, sx, sy);
        if on_stack(s_pre.subrange(0, s_pre.len() - 1), sx, sy) {
            lemma_on_stack_extend(s_pre.subrange(0, s_pre.len() - 1), s_new, sx, sy);
        } else {
            assert(sx == cx && sy == cy);
            assert(on_stack(s_new, sx, sy));
        }
    }
}

/// Whether two channel bytes lie within the tolerance of one another.
fn close_enough(a: u8, b: u8, tol: u8) -> (r: bool)
    ensures
        r == close(a, b, tol),
{
    let d: u8 = if a >= b {
        a - b
    } else {
        b - a
    };
    d <= tol
}

/// Pushes the in-bounds 4-neighbors of `(cx, cy)`, leaving everything that
/// was on the stack in place.
fn push_neighbors(stack: &mut Vec<(usize, usize)>, cx: usize, cy: usize, w: usize, h: usize)
    requires
        cx < w,
        cy < h,
    ensures
        old(stack)@.len() <= final(stack)@.len(),
        final(stack)@.subrange(0, old(stack)@.len() as int) == old(stack)@,
        forall|k: int|
            old(stack)@.len() <= k < final(stack)@.len() ==> ((#[trigger] final(stack)@[k]).0
                as int) < w as int && ((final(stack)@[k]).1 as int) < h as int && adjacent(
                (final(stack)@[k]).0 as int,
                (final(stack)@[k]).1 as int,
                cx as int,
                cy as int,
            ),
        cx as int + 1 < w as int ==> on_stack(final(stack)@, cx as int + 1, cy as int),
        0 < cx ==> on_stack(final(stack)@, cx as int - 1, cy as int),
        cy as int + 1 < h as int ==> on_stack(final(stack)@, cx as int, cy as int + 1),
        0 < cy ==> on_stack(final(stack)@, cx as int, cy as int - 1),
{
    let ghost s0 = stack@;
    if cx > 0 {
        stack.push((cx - 1, cy));
    }
    let ghost sa = stack@;
    if cx + 1 < w {
        stack.push((cx + 1, cy));
    }
    let ghost sb = stack@;
    if cy > 0 {
        stack.push((cx, cy - 1));
    }
    let ghost sc = stack@;
    if cy + 1 < h {
        stack.push((cx, cy + 1));
    }
    proof {
        let sd = stack@;
        assert(sa.subrange(0, s0.len() as int) =~= s0);
        assert(sb.subrange(0, sa.len() as int) =~= sa);
        assert(sc.subrange(0, sb.len() as int) =~= sb);
        assert(sd.subrange(0, sc.len() as int) =~= sc);
        assert(sd.subrange(0, s0.len() as int) =~= s0);
        assert(sd.subrange(0, sa.len() as int) =~= sa);
        assert(sd.subrange(0, sb.len() as int) =~= sb);
        if cx > 0 {
            assert((sa[sa.len() - 1]).0 as int == cx as int - 1);
            assert(on_stack(sa, cx as int - 1, cy as int));
            lemma_on_stack_extend(sa, sd, cx as int - 1, cy as int);
        }
        if cx as int + 1 < w as int {
            assert((sb[sb.len() - 1]).0 as int == cx as int + 1);
            assert(on_stack(sb, cx as int + 1, cy as int));
            lemma_on_stack_extend(sb, sd, cx as int + 1, cy as int);
        }
        if cy > 0 {
            assert((sc[sc.len() - 1]).1 as int == cy as int - 1);
            assert(on_stack(sc, cx as int, cy as int - 1));
            lemma_on_stack_extend(sc, sd, cx as int, cy as int - 1);
        }
        if cy as int + 1 < h as int {
            assert((sd[sd.len() - 1]).1 as int == cy as int + 1);
            assert(on_stack(sd, cx as int, cy as int + 1));
        }
        assert forall|k: int|
            s0.len() <= k < sd.len() implies ((#[trigger] sd[k]).0 as int) < w as int && ((
        sd[k]).1 as int) < h as int && adjacent(
            (sd[k]).0 as int,
            (sd[k]).1 as int,
            cx as int,
            cy as int,
        ) by {
            if k < sa.len() {
                assert(sd[k] == sa[k]);
            } else if k < sb.len() {
                assert(sd[k] == sb[k]);
            } else if k < sc.len() {
                assert(sd[k] == sc[k]);
            }
        }
    }
}


/// Tolerance-bounded 4-connected flood fill, in place.  Returns `false` and
/// leaves the buffer untouched when the start coordinate is out of bounds or
/// the start pixel already holds the fill color exactly; otherwise fills and
/// returns `true`.  Every pixel then either kept its bytes or matched the
/// start pixel's original color within the tolerance and was overwritten with
/// the fill color; the start pixel itself is always overwritten.  With
/// tolerance 255 every pixel matches, so the whole buffer is filled.
#[verifier::loop_isolation(false)]
#[verifier::rlimit(100)]
pub fn flood_fill(
    data: &mut Vec<u8>,
    width: u32,
    height: u32,
    start_x: u32,
    start_y: u32,
    fill_color: u32,
    tolerance: u8,
) -> (filled: bool)
    requires
        is_image(old(data)@, width as int, height as int),
    ensures
        final(data)@.len() == old(data)@.len(),
        filled == (start_x < width && start_y < height && !start_is_fill(
            old(data)@,
            width as int,
            start_x as int,
            start_y as int,
            fill_color,
        )),
        !filled ==> final(data)@ == old(data)@,
        filled ==> fill_outcome(
            old(data)@,
            final(data)@,
            width as int,
            height as int,
            start_x as int,
            start_y as int,
            fill_color,
            tolerance,
        ),
        filled ==> pixel_is(
            final(data)@,
            width as int,
            start_x as int,
            start_y as int,
            color_r(fill_color),
            color_g(fill_color),
            color_b(fill_color),
            color_a(fill_color),
        ),
        filled ==> forall|x: int, y: int|
            0 <= x < width as int && 0 <= y < height as int && #[trigger] reachable(
                old(data)@,
                width as int,
                height as int,
                start_x as int,
                start_y as int,
                tolerance,
                x,
                y,
            ) ==> pixel_is(
                final(data)@,
                width as int,
                x,
                y,
                color_r(fill_color),
                color_g(fill_color),
                color_b(fill_color),
                color_a(fill_color),
            ),
        filled ==> forall|x: int, y: int|
            0 <= x < width as int && 0 <= y < height as int && !(#[trigger] reachable(
                old(data)@,
                width as int,
                height as int,
                start_x as int,
                start_y as int,
                tolerance,
                x,
                y,
            )) ==> pixel_unchanged(final(data)@, old(data)@, width as int, x, y),
        filled && tolerance == 255 ==> all_filled(
            final(data)@,
            width as int,
            height as int,
            fill_color,
        ),
{
    let buf_len: usize = data.len();
    let w: usize = width as usize;
    let h: usize = height as usize;
    let sx: usize = start_x as usize;
    let sy: usize = start_y as usize;
    let ghost gw: int = width as int;
    let ghost gh: int = height as int;
    let ghost gsx: int = start_x as int;
    let ghost gsy: int = start_y as int;
    let ghost orig: Seq<u8> = data@;

    if sx >= w || sy >= h {
        return false;
    }
    proof {
        lemma_byte_index_bounds(gw, gh, gsx, gsy, 3);
        assert(4 * (gw * gh) == 4 * gw * gh) by (nonlinear_arith);
        assert(4 * (gsy * gw + gsx) <= buf_len as int);
    }
    let fr: u8 = ((fill_color >> 24) & 0xFF) as u8;
    let fg: u8 = ((fill_color >> 16) & 0xFF) as u8;
    let fb: u8 = ((fill_color >> 8) & 0xFF) as u8;
    let fa: u8 = (fill_color & 0xFF) as u8;

    let start_base: usize = 4 * (sy * w + sx);
    let t0: u8 = data[start_base];
    let t1: u8 = data[start_base + 1];
    let t2: u8 = data[start_base + 2];
    let t3: u8 = data[start_base + 3];
    proof {
        assert(t0 == orig[byte_index(gw, gsx, gsy, 0)]);
        assert(t1 == orig[byte_index(gw, gsx, gsy, 1)]);
        assert(t2 == orig[byte_index(gw, gsx, gsy, 2)]);
        assert(t3 == orig[byte_index(gw, gsx, gsy, 3)]);
    }

    if t0 == fr && t1 == fg && t2 == fb && t3 == fa {
        return false;
    }

    let n_pixels: usize = w * h;
    let mut visited: Vec<bool> = Vec::new();
    let mut i: usize = 0;
    while i < n_pixels
        invariant
            i <= n_pixels,
            visited@.len() == i as int,
            forall|j: int| 0 <= j < i as int ==> !(#[trigger] visited@[j]),
        decreases n_pixels - i,
    {
        visited.push(false);
        i = i + 1;
    }
    proof {
        assert forall|x: int, y: int|
            0 <= x < gw && 0 <= y < gh implies !(#[trigger] visited_at(visited@, gw, x, y)) by {
            lemma_pixel_bounds(gw, gh, x, y);
        }
    }
    let mut stack: Vec<(usize, usize)> = Vec::new();
    stack.push((sx, sy));
    proof {
        assert((stack@[0]).0 as int == gsx && (stack@[0]).1 as int == gsy);
        assert(on_stack(stack@, gsx, gsy));
        lemma_reachable_start(orig, gw, gh, gsx, gsy, tolerance);
    }

    while stack.len() > 0
        invariant
            data@.len() == orig.len(),
            visited@.len() == gw * gh,
            forall|k: int|
                0 <= k < stack@.len() ==> ((#[trigger] stack@[k]).0 as int) < gw && ((
                stack@[k]).1 as int) < gh,
            forall|x: int, y: int|
                0 <= x < gw && 0 <= y < gh && #[trigger] visited_at(visited@, gw, x, y)
                    ==> matches_target(orig, gw, x, y, t0, t1, t2, t3, tolerance) && pixel_is(
                    data@,
                    gw,
                    x,
                    y,
                    fr,
                    fg,
                    fb,
                    fa,
                ),
            forall|x: int, y: int|
                0 <= x < gw && 0 <= y < gh && !(#[trigger] visited_at(visited@, gw, x, y))
                    ==> pixel_unchanged(data@, orig, gw, x, y),
            forall|x: int, y: int|
                0 <= x < gw && 0 <= y < gh && #[trigger] visited_at(visited@, gw, x, y)
                    ==> neighbors_settled(
                    visited@,
                    stack@,
                    orig,
                    gw,
                    gh,
                    x,
                    y,
                    t0,
                    t1,
                    t2,
                    t3,
                    tolerance,
                ),
            visited_at(visited@, gw, gsx, gsy) || on_stack(stack@, gsx, gsy),
            forall|x: int, y: int|
                0 <= x < gw && 0 <= y < gh && #[trigger] visited_at(visited@, gw, x, y)
                    ==> reachable(orig, gw, gh, gsx, gsy, tolerance, x, y),
            forall|k: int|
                0 <= k < stack@.len() ==> (matches_start(
                    orig,
                    gw,
                    (#[trigger] stack@[k]).0 as int,
                    (stack@[k]).1 as int,
                    gsx,
                    gsy,
                    tolerance,
                ) ==> reachable(
                    orig,
                    gw,
                    gh,
                    gsx,
                    gsy,
                    tolerance,
                    (stack@[k]).0 as int,
                    (stack@[k]).1 as int,
                )),
        decreases unseen(visited@, gw * gh), stack@.len(),
    {
        let ghost s_pre = stack@;
        let ghost v0 = visited@;
        let ghost d0 = data@;
        let top: (usize, usize) = stack.pop().unwrap();
        let cx: usize = top.0;
        let cy: usize = top.1;
        let ghost gcx: int = cx as int;
        let ghost gcy: int = cy as int;
        proof {
            lemma_byte_index_bounds(gw, gh, gcx, gcy, 3);
            assert(4 * (gw * gh) == 4 * gw * gh) by (nonlinear_arith);
            assert(4 * (gcy * gw + gcx) <= buf_len as int);
            assert(stack@.subrange(0, stack@.len() as int) =~= stack@);
            assert(matches_target(orig, gw, gsx, gsy, t0, t1, t2, t3, tolerance));
        }
        let pixel_idx: usize = cy * w + cx;
        if visited[pixel_idx] {
            proof {
                assert(visited_at(v0, gw, gcx, gcy));
                lemma_loop_maintain(
                    v0, visited@, s_pre, stack@, orig, gw, gh, gcx, gcy, gsx, gsy,
                    t0, t1, t2, t3, tolerance);
                assert forall|k: int|
                    0 <= k < stack@.len() implies ((#[trigger] stack@[k]).0 as int) < gw && ((
                stack@[k]).1 as int) < gh && (matches_start(
                    orig,
                    gw,
                    (stack@[k]).0 as int,
                    (stack@[k]).1 as int,
                    gsx,
                    gsy,
                    tolerance,
                ) ==> reachable(
                    orig,
                    gw,
                    gh,
                    gsx,
                    gsy,
                    tolerance,
                    (stack@[k]).0 as int,
                    (stack@[k]).1 as int,
                )) by {
                    assert(stack@[k] == s_pre[k]);
                }
            }
            continue;
        }
        let base: usize = 4 * pixel_idx;
        proof {
            assert(!visited_at(v0, gw, gcx, gcy));
            assert(pixel_unchanged(d0, orig, gw, gcx, gcy));
            assert(base as int == byte_index(gw, gcx, gcy, 0));
        }
        let p0: u8 = data[base];
        let p1: u8 = data[base + 1];
        let p2: u8 = data[base + 2];
        let p3: u8 = data[base + 3];
        proof {
            assert(p0 == orig[byte_index(gw, gcx, gcy, 0)]);
            assert(p1 == orig[byte_index(gw, gcx, gcy, 1)]);
            assert(p2 == orig[byte_index(gw, gcx, gcy, 2)]);
            assert(p3 == orig[byte_index(gw, gcx, gcy, 3)]);
        }
        let ok: bool = close_enough(p0, t0, tolerance) && close_enough(p1, t1, tolerance)
            && close_enough(p2, t2, tolerance) && close_enough(p3, t3, tolerance);
        if !ok {
            proof {
                assert(!matches_target(orig, gw, gcx, gcy, t0, t1, t2, t3, tolerance));
                lemma_loop_maintain(
                    v0, visited@, s_pre, stack@, orig, gw, gh, gcx, gcy, gsx, gsy,
                    t0, t1, t2, t3, tolerance);
                assert forall|k: int|
                    0 <= k < stack@.len() implies ((#[trigger] stack@[k]).0 as int) < gw && ((
                stack@[k]).1 as int) < gh && (matches_start(
                    orig,
                    gw,
                    (stack@[k]).0 as int,
                    (stack@[k]).1 as int,
                    gsx,
                    gsy,
                    tolerance,
                ) ==> reachable(
                    orig,
                    gw,
                    gh,
                    gsx,
                    gsy,
                    tolerance,
                    (stack@[k]).0 as int,
                    (stack@[k]).1 as int,
                )) by {
                    assert(stack@[k] == s_pre[k]);
                }
            }
            continue;
        }
        visited[pixel_idx] = true;
        data[base] = fr;
        data[base + 1] = fg;
        data[base + 2] = fb;
        data[base + 3] = fa;
        let ghost v1 = visited@;
        let ghost d1 = data@;
        let ghost s_popped = stack@;
        push_neighbors(&mut stack, cx, cy, w, h);
        proof {
            // Termination: one more pixel committed.
            lemma_unseen_update(v0, gcy * gw + gcx, gw * gh);
            // The four writes touch only the popped pixel's bytes.
            assert forall|x: int, y: int, c: int|
                0 <= x < gw && 0 <= y < gh && 0 <= c < 4 && !(x == gcx && y == gcy) implies d1[
            #[trigger] byte_index(gw, x, y, c)] == d0[byte_index(gw, x, y, c)] by {
                lemma_byte_index_bounds(gw, gh, x, y, c);
                if y * gw + x == gcy * gw + gcx {
                    lemma_pixel_index_injective(gw, x, y, gcx, gcy);
                }
            }
            // The one write to the visited map touches only the popped pixel.
            assert forall|x: int, y: int|
                0 <= x < gw && 0 <= y < gh && !(x == gcx && y == gcy) implies #[trigger] visited_at(
                v1,
                gw,
                x,
                y,
            ) == visited_at(v0, gw, x, y) by {
                lemma_pixel_bounds(gw, gh, x, y);
                if y * gw + x == gcy * gw + gcx {
                    lemma_pixel_index_injective(gw, x, y, gcx, gcy);
                }
            }
            assert(visited_at(v1, gw, gcx, gcy));
            // Committed pixels matched and now hold the fill color.
            assert forall|x: int, y: int|
                0 <= x < gw && 0 <= y < gh && #[trigger] visited_at(visited@, gw, x, y)
                    implies matches_target(orig, gw, x, y, t0, t1, t2, t3, tolerance) && pixel_is(
                data@,
                gw,
                x,
                y,
                fr,
                fg,
                fb,
                fa,
            ) by {
                if x == gcx && y == gcy {
                    assert(matches_target(orig, gw, gcx, gcy, t0, t1, t2, t3, tolerance));
                    assert(pixel_is(data@, gw, gcx, gcy, fr, fg, fb, fa));
                } else {
                    assert(visited_at(v0, gw, x, y));
                    assert(pixel_is(d0, gw, x, y, fr, fg, fb, fa));
                    assert(data@[byte_index(gw, x, y, 0)] == d0[byte_index(gw, x, y, 0)]);
                    assert(data@[byte_index(gw, x, y, 1)] == d0[byte_index(gw, x, y, 1)]);
                    assert(data@[byte_index(gw, x, y, 2)] == d0[byte_index(gw, x, y, 2)]);
                    assert(data@[byte_index(gw, x, y, 3)] == d0[byte_index(gw, x, y, 3)]);
                }
            }
            // Uncommitted pixels still hold their original bytes.
            assert forall|x: int, y: int|
                0 <= x < gw && 0 <= y < gh && !(#[trigger] visited_at(visited@, gw, x, y))
                    implies pixel_unchanged(data@, orig, gw, x, y) by {
                assert(!(x == gcx && y == gcy));
                assert(!visited_at(v0, gw, x, y));
                assert(pixel_unchanged(d0, orig, gw, x, y));
                assert forall|c: int| 0 <= c < 4 implies data@[#[trigger] byte_index(gw, x, y, c)]
                    == orig[byte_index(gw, x, y, c)] by {
                    assert(d1[byte_index(gw, x, y, c)] == d0[byte_index(gw, x, y, c)]);
                }
            }
            // Visited marks only spread.
            assert forall|x: int, y: int|
                0 <= x < gw && 0 <= y < gh && #[trigger] visited_at(v0, gw, x, y) implies visited_at(
                v1,
                gw,
                x,
                y,
            ) by {
                lemma_pixel_bounds(gw, gh, x, y);
            }
            // Stack bookkeeping: the new stack extends the popped stack.
            assert(s_popped == s_pre.subrange(0, s_pre.len() - 1));
            assert(stack@.subrange(0, s_popped.len() as int) == s_popped);
            lemma_loop_maintain(
                v0, v1, s_pre, stack@, orig, gw, gh, gcx, gcy, gsx, gsy,
                t0, t1, t2, t3, tolerance);
            // The freshly committed pixel's neighbors were all just pushed.
            assert(neighbors_settled(
                v1, stack@, orig, gw, gh, gcx, gcy, t0, t1, t2, t3, tolerance));
            assert forall|x: int, y: int|
                0 <= x < gw && 0 <= y < gh && #[trigger] visited_at(v1, gw, x, y)
                    implies neighbors_settled(
                v1,
                stack@,
                orig,
                gw,
                gh,
                x,
                y,
                t0,
                t1,
                t2,
                t3,
                tolerance,
            ) by {
                if !(x == gcx && y == gcy) {
                    assert(visited_at(v0, gw, x, y));
                }
            }
            // The committed pixel belongs to the fill region: it was queued,
            // and it matches.
            assert((s_pre[s_pre.len() - 1]).0 as int == gcx);
            assert(matches_start(orig, gw, gcx, gcy, gsx, gsy, tolerance));
            assert(reachable(orig, gw, gh, gsx, gsy, tolerance, gcx, gcy));
            assert forall|x: int, y: int|
                0 <= x < gw && 0 <= y < gh && #[trigger] visited_at(v1, gw, x, y)
                    implies reachable(orig, gw, gh, gsx, gsy, tolerance, x, y) by {
                if !(x == gcx && y == gcy) {
                    assert(visited_at(v0, gw, x, y));
                }
            }
            // Everything on the new stack is in bounds, and whatever matches
            // is in the fill region: old entries by the invariant, fresh ones
            // by one adjacency step from the committed pixel.
            assert forall|k: int|
                0 <= k < stack@.len() implies ((#[trigger] stack@[k]).0 as int) < gw && ((
            stack@[k]).1 as int) < gh && (matches_start(
                orig,
                gw,
                (stack@[k]).0 as int,
                (stack@[k]).1 as int,
                gsx,
                gsy,
                tolerance,
            ) ==> reachable(
                orig,
                gw,
                gh,
                gsx,
                gsy,
                tolerance,
                (stack@[k]).0 as int,
                (stack@[k]).1 as int,
            )) by {
                if k < s_popped.len() {
                    assert(stack@[k] == s_popped[k]);
                    assert(s_popped[k] == s_pre[k]);
                } else {
                    if matches_start(
                        orig,
                        gw,
                        (stack@[k]).0 as int,
                        (stack@[k]).1 as int,
                        gsx,
                        gsy,
                        tolerance,
                    ) {
                        lemma_reachable_step(
                            orig,
                            gw,
                            gh,
                            gsx,
                            gsy,
                            tolerance,
                            gcx,
                            gcy,
                            (stack@[k]).0 as int,
                            (stack@[k]).1 as int,
                        );
                    }
                }
            }
        }
    }

    proof {
        assert(!on_stack(stack@, gsx, gsy));
        assert(visited_at(visited@, gw, gsx, gsy));
        assert(pixel_is(data@, gw, gsx, gsy, fr, fg, fb, fa));
        assert forall|x: int, y: int|
            0 <= x < gw && 0 <= y < gh implies (#[trigger] pixel_unchanged(data@, orig, gw, x, y)
            || (matches_start(orig, gw, x, y, gsx, gsy, tolerance) && pixel_is(
            data@,
            gw,
            x,
            y,
            color_r(fill_color),
            color_g(fill_color),
            color_b(fill_color),
            color_a(fill_color),
        ))) by {
            if visited_at(visited@, gw, x, y) {
                assert(matches_target(orig, gw, x, y, t0, t1, t2, t3, tolerance));
                assert(matches_start(orig, gw, x, y, gsx, gsy, tolerance));
            }
        }
        assert(fill_outcome(orig, data@, gw, gh, gsx, gsy, fill_color, tolerance));
        assert forall|x: int, y: int|
            0 <= x < gw && 0 <= y < gh && #[trigger] reachable(
                orig,
                gw,
                gh,
                gsx,
                gsy,
                tolerance,
                x,
                y,
            ) implies pixel_is(
            data@,
            gw,
            x,
            y,
            color_r(fill_color),
            color_g(fill_color),
            color_b(fill_color),
            color_a(fill_color),
        ) by {
            let p = choose|p: Seq<(int, int)>|
                is_fill_path(p, orig, gw, gh, gsx, gsy, tolerance) && p.last() == (x, y);
            lemma_path_visited(
                visited@, stack@, orig, gw, gh, gsx, gsy, t0, t1, t2, t3, tolerance, p);
            assert(visited_at(visited@, gw, x, y));
        }
        assert forall|x: int, y: int|
            0 <= x < gw && 0 <= y < gh && !(#[trigger] reachable(
                orig,
                gw,
                gh,
                gsx,
                gsy,
                tolerance,
                x,
                y,
            )) implies pixel_unchanged(data@, orig, gw, x, y) by {
            assert(!visited_at(visited@, gw, x, y));
        }
        if tolerance == 255 {
            assert forall|x: int, y: int|
                0 <= x < gw && 0 <= y < gh && #[trigger] visited_at(visited@, gw, x, y) implies ((x
                + 1 < gw ==> visited_at(visited@, gw, x + 1, y)) && (0 < x ==> visited_at(
                visited@,
                gw,
                x - 1,
                y,
            )) && (y + 1 < gh ==> visited_at(visited@, gw, x, y + 1)) && (0 < y ==> visited_at(
                visited@,
                gw,
                x,
                y - 1,
            ))) by {
                assert(neighbors_settled(
                    visited@, stack@, orig, gw, gh, x, y, t0, t1, t2, t3, tolerance));
            }
            assert(visited_closed(visited@, gw, gh));
            lemma_reach_all(visited@, gw, gh, gsx, gsy);
            assert forall|x: int, y: int|
                0 <= x < gw && 0 <= y < gh implies #[trigger] pixel_is(
                data@,
                gw,
                x,
                y,
                color_r(fill_color),
                color_g(fill_color),
                color_b(fill_color),
                color_a(fill_color),
            ) by {
                assert(visited_at(visited@, gw, x, y));
            }
            assert(all_filled(data@, gw, gh, fill_color));
        }
    }
    true
}

} // verus!
