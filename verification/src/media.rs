//! Image handling for forwarded media: which URL to fetch, GIF detection,
//! nudging the colours of border pixels, and re-encoding.
use vstd::prelude::*;
use base64::Engine;
use image::{AnimationDecoder, ImageDecoder, ImageEncoder};
use rand::Rng;
use crate::forward::{SegmentInfo, opt_view};
use crate::text::{chars_of, contains_seq, contains_str, has_prefix, starts_with, string_of};

verus! {

/// Position of channel `c` of pixel `(x, y)` in a row-major RGBA buffer of
/// width `w`.
pub open spec fn pixel_index(w: int, x: int, y: int, c: int) -> int {
    (y * w + x) * 4 + c
}

/// `(x, y)` lies on the border of a `w` by `h` image.
pub open spec fn on_edge(w: int, h: int, x: int, y: int) -> bool {
    y == 0 || y == h - 1 || x == 0 || x == w - 1
}

/// `new` is `old` plus an amount below 20, modulo 256.
pub open spec fn nudged(old: u8, new: u8) -> bool {
    (new - old) % 256 < 20
}

/// Pixels for which `done` holds have their red, green and blue channels
/// nudged; every other byte of the buffer is unchanged.
pub open spec fn nudged_where(
    w: int,
    h: int,
    old: Seq<u8>,
    new: Seq<u8>,
    done: spec_fn(int, int) -> bool,
) -> bool {
    &&& new.len() == old.len()
    &&& forall|x: int, y: int, c: int|
        0 <= x < w && 0 <= y < h && 0 <= c < 4 ==> {
            let i = #[trigger] pixel_index(w, x, y, c);
            if done(x, y) && c < 3 {
                nudged(old[i], new[i])
            } else {
                new[i] == old[i]
            }
        }
}

/// `new` is `old` with the red, green and blue channels of every border
/// pixel nudged, and nothing else changed.
pub open spec fn edges_nudged(w: u32, h: u32, old: Seq<u8>, new: Seq<u8>) -> bool {
    nudged_where(w as int, h as int, old, new, |x: int, y: int| on_edge(w as int, h as int, x, y))
}

/// The border walk stays inside the image: both sides are positive, or
/// the image is empty and at most two rows tall.
pub open spec fn edge_walk_defined(w: u32, h: u32) -> bool {
    (w > 0 && h > 0) || (w == 0 && h <= 2)
}

proof fn lemma_index_bounds(w: int, h: int, x: int, y: int)
    requires
        0 <= x < w,
        0 <= y < h,
    ensures
        0 <= y * w,
        y * w + x < w * h,
        pixel_index(w, x, y, 3) < 4 * w * h,
        0 <= pixel_index(w, x, y, 0),
{
    assert(0 <= y * w) by (nonlinear_arith)
        requires
            0 <= y,
            0 <= x < w,
    ;
    assert(y * w + x < w * h) by (nonlinear_arith)
        requires
            0 <= x < w,
            0 <= y < h,
    ;
    assert(4 * w * h == 4 * (w * h)) by (nonlinear_arith);
}

proof fn lemma_index_injective(w: int, x: int, y: int, c: int, x0: int, y0: int, c0: int)
    requires
        0 <= x < w,
        0 <= x0 < w,
        0 <= y,
        0 <= y0,
        0 <= c < 4,
        0 <= c0 < 4,
        pixel_index(w, x, y, c) == pixel_index(w, x0, y0, c0),
    ensures
        x == x0,
        y == y0,
        c == c0,
{
    assert(y * w + x == y0 * w + x0);
    assert(y == y0) by (nonlinear_arith)
        requires
            0 <= x < w,
            0 <= x0 < w,
            y * w + x == y0 * w + x0,
    ;
}

/// `wrapping_add` is addition modulo 256.
proof fn lemma_wrapping_add_mod(v: u8, r: u8)
    ensures
        v.wrapping_add(r) == ((v + r) % 256) as u8,
{
    if v + r > 255 {
        assert((v + r) % 256 == v + r - 256);
    } else {
        assert((v + r) % 256 == v + r);
    }
}

/// A random amount in `0..20` (`rand::Rng::gen_range` on the thread's
/// generator); only the range is known of it.
#[verifier::external_body]
fn random_offset() -> (r: u8)
    ensures
        r < 20,
{
    rand::thread_rng().gen_range(0u8..20u8)
}

/// Raises the red, green and blue bytes of the pixel starting at `base` by
/// the given amounts, in that order, wrapping around.
pub fn apply_offsets(pixels: &mut Vec<u8>, base: usize, amounts: &[u8])
    requires
        base + 3 <= old(pixels)@.len(),
        amounts@.len() == 3,
    ensures
        final(pixels)@.len() == old(pixels)@.len(),
        forall|j: int|
            0 <= j < final(pixels)@.len() ==> #[trigger] final(pixels)@[j] == if base <= j < base
                + 3 {
                ((old(pixels)@[j] + amounts@[j - base]) % 256) as u8
            } else {
                old(pixels)@[j]
            },
{
    let n = pixels.len();
    let mut k: usize = 0;
    while k < 3
        invariant
            k <= 3,
            n == pixels@.len(),
            amounts@.len() == 3,
            base + 3 <= old(pixels)@.len(),
            pixels@.len() == old(pixels)@.len(),
            forall|j: int|
                0 <= j < pixels@.len() ==> #[trigger] pixels@[j] == if base <= j < base + k {
                    ((old(pixels)@[j] + amounts@[j - base]) % 256) as u8
                } else {
                    old(pixels)@[j]
                },
        decreases 3 - k,
    {
        let r = amounts[k];
        let v = pixels[base + k];
        proof {
            lemma_wrapping_add_mod(v, r);
        }
        pixels.set(base + k, v.wrapping_add(r));
        k = k + 1;
    }
}

/// Border slots per column: the top and the bottom pixel, or one pixel
/// when the image is one row tall.
pub open spec fn row_slots(h: int) -> int {
    if h > 1 {
        2
    } else {
        1
    }
}

/// Border slots per inner row: the left and the right pixel, or one pixel
/// when the image is one column wide.
pub open spec fn col_slots(w: int) -> int {
    if w > 1 {
        2
    } else {
        1
    }
}

/// Position of border pixel `(x, y)` in the border walk: column by column
/// along the top and bottom rows (top pixel first), then row by row down
/// the left and right columns between them (left pixel first).
pub open spec fn border_slot(w: int, h: int, x: int, y: int) -> int {
    if y == 0 {
        x * row_slots(h)
    } else if y == h - 1 {
        x * row_slots(h) + 1
    } else {
        w * row_slots(h) + (y - 1) * col_slots(w) + (if x == 0 {
            0int
        } else {
            1int
        })
    }
}

/// Number of pixels the border walk visits.
pub open spec fn border_count(w: int, h: int) -> int {
    w * row_slots(h) + (if h > 2 {
        (h - 2) * col_slots(w)
    } else {
        0int
    })
}

/// Pixels for which `done` holds have channel `c < 3` raised by draw
/// `3 * slot + c`, where `slot` is the pixel's place in the border walk,
/// modulo 256; every other byte is unchanged.
pub open spec fn draws_applied_where(
    w: int,
    h: int,
    old: Seq<u8>,
    new: Seq<u8>,
    draws: Seq<u8>,
    done: spec_fn(int, int) -> bool,
) -> bool {
    &&& new.len() == old.len()
    &&& forall|x: int, y: int, c: int|
        0 <= x < w && 0 <= y < h && 0 <= c < 4 ==> {
            let i = #[trigger] pixel_index(w, x, y, c);
            new[i] == if done(x, y) && c < 3 {
                ((old[i] + draws[3 * border_slot(w, h, x, y) + c]) % 256) as u8
            } else {
                old[i]
            }
        }
}

/// `new` is `old` with channel `c < 3` of the border pixel in walk slot
/// `k` raised by `draws[3 * k + c]`, modulo 256, and nothing else changed.
pub open spec fn border_draws_applied(w: u32, h: u32, old: Seq<u8>, new: Seq<u8>, draws: Seq<u8>) -> bool {
    draws_applied_where(
        w as int,
        h as int,
        old,
        new,
        draws,
        |x: int, y: int| on_edge(w as int, h as int, x, y),
    )
}

/// Every border pixel has a slot below the border count, which is at most
/// the number of pixels.
proof fn lemma_border_slot_bounds(w: int, h: int, x: int, y: int)
    requires
        0 <= x < w,
        0 <= y < h,
        on_edge(w, h, x, y),
    ensures
        0 <= border_slot(w, h, x, y) < border_count(w, h),
{
    if y == 0 || y == h - 1 {
        assert(x * row_slots(h) + row_slots(h) <= w * row_slots(h)) by (nonlinear_arith)
            requires
                0 <= x < w,
                row_slots(h) >= 1,
        ;
        assert(0 <= x * row_slots(h)) by (nonlinear_arith)
            requires
                0 <= x,
                row_slots(h) >= 1,
        ;
        assert(h > 2 ==> 0 <= (h - 2) * col_slots(w)) by (nonlinear_arith)
            requires
                col_slots(w) >= 1,
        ;
    } else {
        assert((y - 1) * col_slots(w) + col_slots(w) <= (h - 2) * col_slots(w)) by (nonlinear_arith)
            requires
                1 <= y <= h - 2,
                col_slots(w) >= 1,
        ;
        assert(0 <= (y - 1) * col_slots(w)) by (nonlinear_arith)
            requires
                1 <= y,
                col_slots(w) >= 1,
        ;
        assert(0 <= w * row_slots(h)) by (nonlinear_arith)
            requires
                0 <= w,
                row_slots(h) >= 1,
        ;
    }
}

/// The border walk visits at most as many pixels as the image has.
proof fn lemma_border_count_bound(w: int, h: int)
    requires
        0 <= w,
        0 <= h,
        (w > 0 && h > 0) || (w == 0 && h <= 2),
    ensures
        0 <= border_count(w, h) <= w * h,
{
    if w == 0 {
    } else if h == 1 {
    } else if h == 2 {
    } else if w == 1 {
    } else {
        assert(2 * w + (h - 2) * 2 <= w * h) by (nonlinear_arith)
            requires
                w >= 2,
                h >= 3,
        ;
    }
}

/// After raising one more pixel `(x0, y0)`, untouched so far, by the three
/// draws of its slot, that pixel is chosen too.
proof fn lemma_draw_step(
    w: int,
    h: int,
    old: Seq<u8>,
    mid: Seq<u8>,
    new: Seq<u8>,
    draws: Seq<u8>,
    done: spec_fn(int, int) -> bool,
    x0: int,
    y0: int,
)
    requires
        old.len() == 4 * w * h,
        0 <= x0 < w,
        0 <= y0 < h,
        !done(x0, y0),
        draws_applied_where(w, h, old, mid, draws, done),
        new.len() == mid.len(),
        forall|j: int|
            0 <= j < new.len() ==> #[trigger] new[j] == if pixel_index(w, x0, y0, 0) <= j
                < pixel_index(w, x0, y0, 0) + 3 {
                ((mid[j] + draws[3 * border_slot(w, h, x0, y0) + (j - pixel_index(w, x0, y0, 0))])
                    % 256) as u8
            } else {
                mid[j]
            },
    ensures
        draws_applied_where(w, h, old, new, draws, |x: int, y: int| done(x, y) || (x == x0 && y == y0)),
{
    let b = pixel_index(w, x0, y0, 0);
    let done2 = |x: int, y: int| done(x, y) || (x == x0 && y == y0);
    assert forall|x: int, y: int, c: int| 0 <= x < w && 0 <= y < h && 0 <= c < 4 implies {
        let i = #[trigger] pixel_index(w, x, y, c);
        new[i] == if done2(x, y) && c < 3 {
            ((old[i] + draws[3 * border_slot(w, h, x, y) + c]) % 256) as u8
        } else {
            old[i]
        }
    } by {
        let i = pixel_index(w, x, y, c);
        lemma_index_bounds(w, h, x, y);
        assert(0 <= i < new.len());
        if b <= i < b + 4 {
            lemma_index_injective(w, x, y, c, x0, y0, i - b);
            assert(mid[i] == old[i]);
        }
    }
}

/// Choices of pixels that agree inside the image give the same buffers.
proof fn lemma_draws_applied_same(
    w: int,
    h: int,
    old: Seq<u8>,
    new: Seq<u8>,
    draws: Seq<u8>,
    d1: spec_fn(int, int) -> bool,
    d2: spec_fn(int, int) -> bool,
)
    requires
        draws_applied_where(w, h, old, new, draws, d1),
        forall|x: int, y: int| 0 <= x < w && 0 <= y < h ==> #[trigger] d1(x, y) == d2(x, y),
    ensures
        draws_applied_where(w, h, old, new, draws, d2),
{
    assert forall|x: int, y: int, c: int| 0 <= x < w && 0 <= y < h && 0 <= c < 4 implies {
        let i = #[trigger] pixel_index(w, x, y, c);
        new[i] == if d2(x, y) && c < 3 {
            ((old[i] + draws[3 * border_slot(w, h, x, y) + c]) % 256) as u8
        } else {
            old[i]
        }
    } by {
        assert(d1(x, y) == d2(x, y));
    }
}

/// Draws below 20 applied to the border nudge exactly the border.
proof fn lemma_draws_nudge(w: u32, h: u32, old: Seq<u8>, new: Seq<u8>, draws: Seq<u8>)
    requires
        old.len() == 4 * w * h,
        draws.len() == 3 * border_count(w as int, h as int),
        forall|k: int| 0 <= k < draws.len() ==> #[trigger] draws[k] < 20,
        border_draws_applied(w, h, old, new, draws),
    ensures
        edges_nudged(w, h, old, new),
{
    let wi = w as int;
    let hi = h as int;
    assert forall|x: int, y: int, c: int| 0 <= x < wi && 0 <= y < hi && 0 <= c < 4 implies {
        let i = #[trigger] pixel_index(wi, x, y, c);
        if on_edge(wi, hi, x, y) && c < 3 {
            nudged(old[i], new[i])
        } else {
            new[i] == old[i]
        }
    } by {
        let i = pixel_index(wi, x, y, c);
        if on_edge(wi, hi, x, y) && c < 3 {
            lemma_border_slot_bounds(wi, hi, x, y);
            let d = draws[3 * border_slot(wi, hi, x, y) + c];
            assert(d < 20);
            if old[i] + d > 255 {
                assert((old[i] + d) % 256 == old[i] + d - 256);
                assert((new[i] - old[i]) % 256 == d);
            } else {
                assert((old[i] + d) % 256 == old[i] + d);
            }
        }
    }
}

/// Offset of the first byte of pixel `(x, y)`.
fn pixel_base(len: usize, w: u32, h: u32, x: u32, y: u32) -> (b: usize)
    requires
        len == 4 * w * h,
        x < w,
        y < h,
    ensures
        b == pixel_index(w as int, x as int, y as int, 0),
        b + 3 < len,
{
    proof {
        lemma_index_bounds(w as int, h as int, x as int, y as int);
    }
    let row: u64 = (y as u64) * (w as u64);
    let at: u64 = row + x as u64;
    let b: u64 = at * 4;
    b as usize
}

/// Raises border pixel `(x, y)`, whose walk slot is `k`, by draws
/// `3k`, `3k + 1` and `3k + 2`.
fn apply_slot(pixels: &mut Vec<u8>, draws: &[u8], w: u32, h: u32, x: u32, y: u32, k: usize)
    requires
        old(pixels)@.len() == 4 * w * h,
        x < w,
        y < h,
        k == border_slot(w as int, h as int, x as int, y as int),
        3 * k + 3 <= draws@.len(),
    ensures
        final(pixels)@.len() == old(pixels)@.len(),
        forall|j: int|
            0 <= j < final(pixels)@.len() ==> #[trigger] final(pixels)@[j] == if pixel_index(
                w as int,
                x as int,
                y as int,
                0,
            ) <= j < pixel_index(w as int, x as int, y as int, 0) + 3 {
                ((old(pixels)@[j] + draws@[3 * k + (j - pixel_index(
                    w as int,
                    x as int,
                    y as int,
                    0,
                ))]) % 256) as u8
            } else {
                old(pixels)@[j]
            },
{
    let len = pixels.len();
    let b = pixel_base(len, w, h, x, y);
    let dlen = draws.len();
    assert(3 * k + 3 <= dlen);
    let amounts = &draws[3 * k..3 * k + 3];
    apply_offsets(pixels, b, amounts);
}

/// Raises the red, green and blue bytes of every border pixel by the
/// given draws, wrapping around: the pixel in walk slot `k` (see
/// [`border_slot`]) gets draws `3k`, `3k + 1` and `3k + 2`. The walk takes
/// the top and bottom rows first, then the left and right columns between
/// them.
pub fn nudge_border(pixels: &mut Vec<u8>, w: u32, h: u32, draws: &[u8])
    requires
        old(pixels)@.len() == 4 * w * h,
        edge_walk_defined(w, h),
        draws@.len() == 3 * border_count(w as int, h as int),
    ensures
        border_draws_applied(w, h, old(pixels)@, final(pixels)@, draws@),
{
    let ghost orig = pixels@;
    let ghost wi = w as int;
    let ghost hi = h as int;
    let ghost dv = draws@;
    let len = pixels.len();
    let dlen = draws.len();
    assert(draws_applied_where(wi, hi, orig, pixels@, dv, |px: int, py: int| px < 0 && (py == 0 || py == hi - 1)));
    let mut k: usize = 0;
    let mut x: u32 = 0;
    while x < w
        invariant
            len == pixels@.len(),
            orig.len() == len,
            len == 4 * w * h,
            wi == w,
            hi == h,
            dv == draws@,
            dlen == dv.len(),
            x <= w,
            edge_walk_defined(w, h),
            dv.len() == 3 * border_count(wi, hi),
            k == x * row_slots(hi),
            draws_applied_where(wi, hi, orig, pixels@, dv, |px: int, py: int| px < x && (py == 0 || py == hi - 1)),
        decreases w - x,
    {
        let ghost d0 = |px: int, py: int| px < x && (py == 0 || py == hi - 1);
        proof {
            lemma_border_slot_bounds(wi, hi, x as int, 0);
        }
        let ghost mid = pixels@;
        apply_slot(pixels, draws, w, h, x, 0, k);
        proof {
            lemma_draw_step(wi, hi, orig, mid, pixels@, dv, d0, x as int, 0);
        }
        k = k + 1;
        let ghost d1 = |px: int, py: int| d0(px, py) || (px == x && py == 0);
        if h > 1 {
            proof {
                lemma_border_slot_bounds(wi, hi, x as int, hi - 1);
            }
            let ghost mid2 = pixels@;
            apply_slot(pixels, draws, w, h, x, h - 1, k);
            proof {
                lemma_draw_step(wi, hi, orig, mid2, pixels@, dv, d1, x as int, hi - 1);
                lemma_draws_applied_same(
                    wi,
                    hi,
                    orig,
                    pixels@,
                    dv,
                    |px: int, py: int| d1(px, py) || (px == x && py == hi - 1),
                    |px: int, py: int| px < x + 1 && (py == 0 || py == hi - 1),
                );
            }
            k = k + 1;
        } else {
            proof {
                lemma_draws_applied_same(
                    wi,
                    hi,
                    orig,
                    pixels@,
                    dv,
                    d1,
                    |px: int, py: int| px < x + 1 && (py == 0 || py == hi - 1),
                );
            }
        }
        proof {
            assert((x + 1) * row_slots(hi) == x * row_slots(hi) + row_slots(hi)) by (nonlinear_arith);
        }
        x = x + 1;
    }
    proof {
        lemma_draws_applied_same(
            wi,
            hi,
            orig,
            pixels@,
            dv,
            |px: int, py: int| px < x && (py == 0 || py == hi - 1),
            |px: int, py: int| (py == 0 || py == hi - 1) || (1 <= py < 1 && (px == 0 || px == wi - 1)),
        );
    }
    let last: u32 = if h >= 1 {
        h - 1
    } else {
        0
    };
    let mut y: u32 = 1;
    while y < last
        invariant
            len == pixels@.len(),
            orig.len() == len,
            len == 4 * w * h,
            wi == w,
            hi == h,
            dv == draws@,
            dlen == dv.len(),
            last == (if h >= 1 { h - 1 } else { 0 }),
            1 <= y,
            edge_walk_defined(w, h),
            dv.len() == 3 * border_count(wi, hi),
            k == wi * row_slots(hi) + (y - 1) * col_slots(wi),
            draws_applied_where(
                wi,
                hi,
                orig,
                pixels@,
                dv,
                |px: int, py: int| (py == 0 || py == hi - 1) || (1 <= py < y && (px == 0 || px == wi - 1)),
            ),
        decreases last - y,
    {
        let ghost d0 = |px: int, py: int| (py == 0 || py == hi - 1) || (1 <= py < y && (px == 0 || px == wi - 1));
        proof {
            lemma_border_slot_bounds(wi, hi, 0, y as int);
        }
        let ghost mid = pixels@;
        apply_slot(pixels, draws, w, h, 0, y, k);
        proof {
            lemma_draw_step(wi, hi, orig, mid, pixels@, dv, d0, 0, y as int);
        }
        k = k + 1;
        let ghost d1 = |px: int, py: int| d0(px, py) || (px == 0 && py == y);
        if w > 1 {
            proof {
                lemma_border_slot_bounds(wi, hi, wi - 1, y as int);
            }
            let ghost mid2 = pixels@;
            apply_slot(pixels, draws, w, h, w - 1, y, k);
            proof {
                lemma_draw_step(wi, hi, orig, mid2, pixels@, dv, d1, wi - 1, y as int);
                lemma_draws_applied_same(
                    wi,
                    hi,
                    orig,
                    pixels@,
                    dv,
                    |px: int, py: int| d1(px, py) || (px == wi - 1 && py == y),
                    |px: int, py: int| (py == 0 || py == hi - 1) || (1 <= py < y + 1 && (px == 0 || px == wi - 1)),
                );
            }
            k = k + 1;
        } else {
            proof {
                lemma_draws_applied_same(
                    wi,
                    hi,
                    orig,
                    pixels@,
                    dv,
                    d1,
                    |px: int, py: int| (py == 0 || py == hi - 1) || (1 <= py < y + 1 && (px == 0 || px == wi - 1)),
                );
            }
        }
        proof {
            assert(y * col_slots(wi) == (y - 1) * col_slots(wi) + col_slots(wi)) by (nonlinear_arith);
        }
        y = y + 1;
    }
    proof {
        lemma_draws_applied_same(
            wi,
            hi,
            orig,
            pixels@,
            dv,
            |px: int, py: int| (py == 0 || py == hi - 1) || (1 <= py < y && (px == 0 || px == wi - 1)),
            |px: int, py: int| on_edge(wi, hi, px, py),
        );
    }
}

/// Number of pixels the border walk visits.
fn border_pixels(w: u32, h: u32) -> (n: usize)
    requires
        edge_walk_defined(w, h),
        4 * w * h <= usize::MAX,
    ensures
        n == border_count(w as int, h as int),
        3 * n <= 4 * w * h,
{
    proof {
        lemma_border_count_bound(w as int, h as int);
        assert(0 <= w * h && 4 * w * h == 4 * (w * h)) by (nonlinear_arith);
    }
    let rows: u64 = if h > 1 {
        2 * (w as u64)
    } else {
        w as u64
    };
    let cols: u64 = if h > 2 {
        if w > 1 {
            2 * ((h - 2) as u64)
        } else {
            (h - 2) as u64
        }
    } else {
        0
    };
    (rows + cols) as usize
}

/// `x` is a value the random source can give: a possible result of
/// [`random_offset`].
pub closed spec fn drawn_amount(x: u8) -> bool {
    call_ensures(random_offset, (), x)
}

/// A value the random source gave is below 20.
pub proof fn lemma_drawn_amount_below_20(x: u8)
    requires
        drawn_amount(x),
    ensures
        x < 20,
{
}

/// Draws the amounts for the border walk of a `w` by `h` image of `len`
/// bytes from `next`: one call per amount, three per border pixel, each
/// kept as it came back.
fn draw_border_amounts<F: Fn() -> u8>(len: usize, w: u32, h: u32, next: F) -> (draws: Vec<u8>)
    requires
        edge_walk_defined(w, h),
        len == 4 * w * h,
        call_requires(next, ()),
    ensures
        draws@.len() == 3 * border_count(w as int, h as int),
        forall|k: int| 0 <= k < draws@.len() ==> call_ensures(next, (), #[trigger] draws@[k]),
{
    let n = border_pixels(w, h);
    let total = 3 * n;
    let mut draws: Vec<u8> = Vec::new();
    let mut i: usize = 0;
    while i < total
        invariant
            total == 3 * n,
            i <= total,
            draws@.len() == i,
            call_requires(next, ()),
            forall|k: int| 0 <= k < i ==> call_ensures(next, (), #[trigger] draws@[k]),
        decreases total - i,
    {
        let r = next();
        draws.push(r);
        i = i + 1;
    }
    draws
}

/// Raises the red, green and blue bytes of every border pixel of a `w` by
/// `h` RGBA buffer by random amounts below 20, wrapping around, and
/// returns the amounts drawn: three per border pixel, in the order of the
/// border walk of [`nudge_border`], which applies them.
pub fn randomize_edges(pixels: &mut Vec<u8>, w: u32, h: u32) -> (draws: Vec<u8>)
    requires
        old(pixels)@.len() == 4 * w * h,
        edge_walk_defined(w, h),
    ensures
        draws@.len() == 3 * border_count(w as int, h as int),
        forall|k: int| 0 <= k < draws@.len() ==> #[trigger] draws@[k] < 20,
        forall|k: int| 0 <= k < draws@.len() ==> drawn_amount(#[trigger] draws@[k]),
        border_draws_applied(w, h, old(pixels)@, final(pixels)@, draws@),
        edges_nudged(w, h, old(pixels)@, final(pixels)@),
{
    let draws = draw_border_amounts(pixels.len(), w, h, random_offset);
    proof {
        assert forall|k: int| 0 <= k < draws@.len() implies #[trigger] draws@[k] < 20 by {
            lemma_drawn_amount_below_20(draws@[k]);
        }
    }
    nudge_border(pixels, w, h, draws.as_slice());
    proof {
        lemma_draws_nudge(w, h, old(pixels)@, pixels@, draws@);
    }
    draws
}

/// The border walk gives distinct border pixels distinct slots below the
/// border count, so each drawn amount goes to one byte of one pixel.
pub proof fn law_border_slots_distinct(w: u32, h: u32, x1: int, y1: int, x2: int, y2: int)
    requires
        0 <= x1 < w,
        0 <= y1 < h,
        0 <= x2 < w,
        0 <= y2 < h,
        on_edge(w as int, h as int, x1, y1),
        on_edge(w as int, h as int, x2, y2),
        x1 != x2 || y1 != y2,
    ensures
        border_slot(w as int, h as int, x1, y1) != border_slot(w as int, h as int, x2, y2),
        0 <= border_slot(w as int, h as int, x1, y1) < border_count(w as int, h as int),
{
    let wi = w as int;
    let hi = h as int;
    lemma_border_slot_bounds(wi, hi, x1, y1);
    lemma_border_slot_bounds(wi, hi, x2, y2);
    let r = row_slots(hi);
    let top1 = y1 == 0 || y1 == hi - 1;
    let top2 = y2 == 0 || y2 == hi - 1;
    if top1 && top2 {
        if hi == 1 {
            assert(r == 1);
            assert(x1 * r == x1 && x2 * r == x2) by (nonlinear_arith)
                requires
                    r == 1,
            ;
        } else {
            assert(r == 2);
            assert(x1 * r == 2 * x1 && x2 * r == 2 * x2) by (nonlinear_arith)
                requires
                    r == 2,
            ;
        }
    } else if top1 || top2 {
        let (xt, yt) = if top1 { (x1, y1) } else { (x2, y2) };
        assert(border_slot(wi, hi, xt, yt) < wi * r) by {
            assert(xt * r + r <= wi * r) by (nonlinear_arith)
                requires
                    0 <= xt < wi,
                    r >= 1,
            ;
        }
        assert(h > 2) by {
            if !top1 {
                assert(1 <= y1 < hi - 1);
            } else {
                assert(1 <= y2 < hi - 1);
            }
        }
        assert(0 <= (y1 - 1) * col_slots(wi) || top1) by (nonlinear_arith)
            requires
                top1 || y1 >= 1,
                col_slots(wi) >= 1,
        ;
        assert(0 <= (y2 - 1) * col_slots(wi) || top2) by (nonlinear_arith)
            requires
                top2 || y2 >= 1,
                col_slots(wi) >= 1,
        ;
    } else {
        if wi == 1 {
            let c = col_slots(wi);
            assert(c == 1);
            assert((y1 - 1) * c == y1 - 1 && (y2 - 1) * c == y2 - 1) by (nonlinear_arith)
                requires
                    c == 1,
            ;
        } else {
            let c = col_slots(wi);
            assert(c == 2);
            assert((y1 - 1) * c == 2 * (y1 - 1) && (y2 - 1) * c == 2 * (y2 - 1)) by (nonlinear_arith)
                requires
                    c == 2,
            ;
        }
    }
}

/// Nudging the border changes only the red, green and blue bytes of border
/// pixels, each by less than 20 modulo 256: alpha bytes and inner pixels
/// keep their values.
pub proof fn law_only_border_colours_change(
    w: u32,
    h: u32,
    old: Seq<u8>,
    new: Seq<u8>,
    x: int,
    y: int,
    c: int,
)
    requires
        edges_nudged(w, h, old, new),
        0 <= x < w,
        0 <= y < h,
        0 <= c < 4,
    ensures
        new.len() == old.len(),
        (!on_edge(w as int, h as int, x, y) || c == 3) ==> new[pixel_index(w as int, x, y, c)]
            == old[pixel_index(w as int, x, y, c)],
        on_edge(w as int, h as int, x, y) && c < 3 ==> (new[pixel_index(w as int, x, y, c)]
            - old[pixel_index(w as int, x, y, c)]) % 256 < 20,
{
    let i = pixel_index(w as int, x, y, c);
}

/// Decoded pixels: `width` by `height`, four bytes (red, green, blue,
/// alpha) per pixel, row by row.
pub struct RgbaImageData {
    pub width: u32,
    pub height: u32,
    pub pixels: Vec<u8>,
}

/// What the image crate's built-in formats make of `bytes` (format guessed
/// from the leading bytes by `image::guess_format`, decoded by
/// `image::load_from_memory_with_format`, converted by `to_rgba8`): width,
/// height and RGBA bytes, or nothing when they are not such an image.
pub uninterp spec fn decoded_image(bytes: Seq<u8>) -> Option<(u32, u32, Seq<u8>)>;

/// Decodes an image in one of the image crate's built-in formats into RGBA
/// pixels (`image::guess_format`, `image::load_from_memory_with_format`,
/// then `DynamicImage::to_rgba8`). This path never consults the crate's
/// run-time format hooks. The contract names the result and adds that
/// `to_rgba8` gives exactly four bytes per pixel.
#[verifier::external_body]
fn decode_image(bytes: &[u8]) -> (r: Option<RgbaImageData>)
    ensures
        match r {
            Some(img) => decoded_image(bytes@) == Some((img.width, img.height, img.pixels@))
                && img.pixels@.len() == 4 * img.width * img.height,
            None => decoded_image(bytes@) is None,
        },
{
    let format = image::guess_format(bytes).ok()?;
    match image::load_from_memory_with_format(bytes, format) {
        Ok(img) => {
            let rgba = img.to_rgba8();
            let (width, height) = rgba.dimensions();
            Some(RgbaImageData { width, height, pixels: rgba.into_raw() })
        },
        Err(_) => None,
    }
}

/// The bytes `PngEncoder::write_image` leaves in an empty buffer for a
/// `width` by `height` RGBA image (nothing, or a partial write, when it fails).
pub uninterp spec fn png_output(width: u32, height: u32, pixels: Seq<u8>) -> Seq<u8>;

/// Encodes RGBA pixels as PNG (`image::codecs::png::PngEncoder::write_image`
/// into an empty buffer), returning the buffer whatever the outcome; the
/// contract only names it. The encoder panics unless the buffer holds
/// exactly four bytes per pixel.
#[verifier::external_body]
fn encode_png(width: u32, height: u32, pixels: &[u8]) -> (out: Vec<u8>)
    requires
        pixels@.len() == 4 * width * height,
    ensures
        out@ == png_output(width, height, pixels@),
{
    let mut buf = Vec::new();
    let _ = image::codecs::png::PngEncoder::new(&mut buf).write_image(
        pixels,
        width,
        height,
        image::ExtendedColorType::Rgba8,
    );
    buf
}

/// A transparent 1 by 1 PNG, used when encoding gives nothing.
pub open spec fn fallback_png() -> Seq<u8> {
    seq![
        137u8, 80, 78, 71, 13, 10, 26, 10, 0, 0, 0, 13, 73, 72, 68, 82, 0, 0, 0, 1, 0, 0, 0,
        1, 8, 6, 0, 0, 0, 31, 21, 196, 137, 0, 0, 0, 10, 73, 68, 65, 84, 120, 156, 98, 0, 0,
        0, 2, 0, 1, 228, 33, 188, 51, 0, 0, 0, 0, 73, 69, 78, 68, 174, 66, 96, 130,
    ]
}

/// The PNG encoding of the pixels, or the fallback image when it is empty.
pub open spec fn png_or_fallback(width: u32, height: u32, pixels: Seq<u8>) -> Seq<u8> {
    if png_output(width, height, pixels).len() == 0 {
        fallback_png()
    } else {
        png_output(width, height, pixels)
    }
}

/// A copy of the pixels with every border pixel raised by the given draws
/// (as [`nudge_border`] applies them), encoded as PNG; the fallback image
/// when encoding gives nothing.
pub fn nudged_png(img: &RgbaImageData, draws: &[u8]) -> (out: Vec<u8>)
    requires
        img.pixels@.len() == 4 * img.width * img.height,
        edge_walk_defined(img.width, img.height),
        draws@.len() == 3 * border_count(img.width as int, img.height as int),
    ensures
        exists|p: Seq<u8>|
            border_draws_applied(img.width, img.height, img.pixels@, p, draws@) && out@
                == png_or_fallback(img.width, img.height, p),
{
    let mut px = vstd::slice::slice_to_vec(img.pixels.as_slice());
    nudge_border(&mut px, img.width, img.height, draws);
    let buf = encode_png(img.width, img.height, px.as_slice());
    if buf.len() == 0 {
        let fb: Vec<u8> = vec![
            137, 80, 78, 71, 13, 10, 26, 10, 0, 0, 0, 13, 73, 72, 68, 82, 0, 0, 0, 1, 0, 0, 0,
            1, 8, 6, 0, 0, 0, 31, 21, 196, 137, 0, 0, 0, 10, 73, 68, 65, 84, 120, 156, 98, 0, 0,
            0, 2, 0, 1, 228, 33, 188, 51, 0, 0, 0, 0, 73, 69, 78, 68, 174, 66, 96, 130,
        ];
        assert(fb@ =~= fallback_png());
        assert(border_draws_applied(img.width, img.height, img.pixels@, px@, draws@) && fb@
            == png_or_fallback(img.width, img.height, px@));
        fb
    } else {
        assert(border_draws_applied(img.width, img.height, img.pixels@, px@, draws@) && buf@
            == png_or_fallback(img.width, img.height, px@));
        buf
    }
}

/// A copy of the pixels with the border nudged by random amounts below 20,
/// as PNG bytes: the amounts are drawn first, three per border pixel in the
/// order of the border walk, then handed to [`nudged_png`].
pub fn modify_edge_pixels(img: &RgbaImageData) -> (out: Vec<u8>)
    requires
        img.pixels@.len() == 4 * img.width * img.height,
        edge_walk_defined(img.width, img.height),
    ensures
        exists|d: Seq<u8>, p: Seq<u8>|
            d.len() == 3 * border_count(img.width as int, img.height as int) && (forall|k: int|
                0 <= k < d.len() ==> #[trigger] d[k] < 20) && (forall|k: int|
                0 <= k < d.len() ==> drawn_amount(#[trigger] d[k])) && border_draws_applied(
                img.width,
                img.height,
                img.pixels@,
                p,
                d,
            ) && out@ == png_or_fallback(img.width, img.height, p),
        exists|p: Seq<u8>|
            edges_nudged(img.width, img.height, img.pixels@, p) && out@ == png_or_fallback(
                img.width,
                img.height,
                p,
            ),
{
    let draws = draw_border_amounts(img.pixels.len(), img.width, img.height, random_offset);
    let out = nudged_png(img, draws.as_slice());
    proof {
        assert forall|k: int| 0 <= k < draws@.len() implies #[trigger] draws@[k] < 20 by {
            lemma_drawn_amount_below_20(draws@[k]);
        }
        let p = choose|p: Seq<u8>|
            border_draws_applied(img.width, img.height, img.pixels@, p, draws@) && out@
                == png_or_fallback(img.width, img.height, p);
        lemma_draws_nudge(img.width, img.height, img.pixels@, p, draws@);
        assert(edges_nudged(img.width, img.height, img.pixels@, p) && out@ == png_or_fallback(
            img.width,
            img.height,
            p,
        ));
        assert(draws@.len() == 3 * border_count(img.width as int, img.height as int) && (forall|
            k: int,
        | 0 <= k < draws@.len() ==> #[trigger] draws@[k] < 20) && (forall|k: int|
            0 <= k < draws@.len() ==> drawn_amount(#[trigger] draws@[k])) && border_draws_applied(
            img.width,
            img.height,
            img.pixels@,
            p,
            draws@,
        ) && out@ == png_or_fallback(img.width, img.height, p));
    }
    out
}

/// `4 * w * h` without overflow.
fn rgba_len(w: u32, h: u32) -> (n: u128)
    ensures
        n == 4 * w * h,
{
    proof {
        assert(4 * w * h <= 4 * 0xffff_ffff * 0xffff_ffffint) by (nonlinear_arith)
            requires
                w <= 0xffff_ffff,
                h <= 0xffff_ffff,
        ;
        assert(0 <= 4 * w * h) by (nonlinear_arith);
    }
    4 * (w as u128) * (h as u128)
}

/// The border walk stays inside the image.
fn walk_defined(w: u32, h: u32) -> (r: bool)
    ensures
        r == edge_walk_defined(w, h),
{
    (w > 0 && h > 0) || (w == 0 && h <= 2)
}

/// Whether the pixel buffer fits its size exactly and its border can be
/// walked.
pub open spec fn redrawable(w: u32, h: u32, pixels: Seq<u8>) -> bool {
    pixels.len() == 4 * w * h && edge_walk_defined(w, h)
}

/// The outcome for a still image: nothing when it does not decode (or its
/// decoded buffer does not fit its size); otherwise the PNG of its pixels
/// with the border nudged.
pub open spec fn still_redrawn(bytes: Seq<u8>, out: Option<Seq<u8>>) -> bool {
    match decoded_image(bytes) {
        None => out is None,
        Some((w, h, p)) => if redrawable(w, h, p) {
            out matches Some(o) && exists|p2: Seq<u8>|
                edges_nudged(w, h, p, p2) && o == png_or_fallback(w, h, p2)
        } else {
            out is None
        },
    }
}

/// The view of optional bytes.
pub open spec fn opt_bytes(v: Option<Vec<u8>>) -> Option<Seq<u8>> {
    match v {
        Some(b) => Some(b@),
        None => None,
    }
}

/// Decodes a still image and returns its pixels, border nudged, as PNG.
pub fn redraw_still_image(bytes: &[u8]) -> (r: Option<Vec<u8>>)
    ensures
        still_redrawn(bytes@, opt_bytes(r)),
{
    let img = match decode_image(bytes) {
        Some(img) => img,
        None => return None,
    };
    let need = rgba_len(img.width, img.height);
    if (img.pixels.len() as u128) != need || !walk_defined(img.width, img.height) {
        return None;
    }
    Some(modify_edge_pixels(&img))
}

/// One decoded GIF frame: its RGBA bytes and its delay as a fraction of
/// milliseconds.
pub struct RawFrame {
    pub pixels: Vec<u8>,
    pub delay_numer: u32,
    pub delay_denom: u32,
}

/// A decoded GIF: the canvas size and the frames.
pub struct DecodedGif {
    pub width: u32,
    pub height: u32,
    pub frames: Vec<RawFrame>,
}

/// The views of decoded frames.
pub open spec fn raw_frames_view(fs: Seq<RawFrame>) -> Seq<(Seq<u8>, u32, u32)> {
    fs.map_values(|f: RawFrame| (f.pixels@, f.delay_numer, f.delay_denom))
}

/// What `GifDecoder` makes of `bytes`: canvas width and height and, for
/// each frame, its RGBA bytes and delay; nothing when decoding fails.
pub uninterp spec fn decoded_gif(bytes: Seq<u8>) -> Option<(u32, u32, Seq<(Seq<u8>, u32, u32)>)>;

/// Decodes every frame of a GIF (`GifDecoder::new`, `dimensions`,
/// `into_frames().collect_frames()`), with each frame's buffer and its delay
/// (`Delay::numer_denom_ms`). The contract names the result and adds that
/// delay denominators are never zero, which `Delay` keeps as an invariant.
#[verifier::external_body]
fn decode_gif(bytes: &[u8]) -> (r: Option<DecodedGif>)
    ensures
        match r {
            Some(g) => decoded_gif(bytes@) == Some((g.width, g.height, raw_frames_view(g.frames@)))
                && forall|k: int| 0 <= k < g.frames@.len() ==> #[trigger] g.frames@[k].delay_denom != 0,
            None => decoded_gif(bytes@) is None,
        },
{
    let decoder = image::codecs::gif::GifDecoder::new(std::io::Cursor::new(bytes)).ok()?;
    let (width, height) = decoder.dimensions();
    let decoded = decoder.into_frames().collect_frames().ok()?;
    let mut frames = Vec::new();
    for f in decoded {
        let (delay_numer, delay_denom) = f.delay().numer_denom_ms();
        frames.push(RawFrame { pixels: f.into_buffer().into_raw(), delay_numer, delay_denom });
    }
    Some(DecodedGif { width, height, frames })
}

/// One frame to encode: size, RGBA bytes and delay.
pub struct GifFrame {
    pub width: u32,
    pub height: u32,
    pub pixels: Vec<u8>,
    pub delay_numer: u32,
    pub delay_denom: u32,
}

/// The views of frames to encode.
pub open spec fn gif_frames_view(fs: Seq<GifFrame>) -> Seq<(u32, u32, Seq<u8>, u32, u32)> {
    fs.map_values(|f: GifFrame| (f.width, f.height, f.pixels@, f.delay_numer, f.delay_denom))
}

/// What `GifEncoder` with infinite repetition writes for these frames, or
/// nothing when it fails.
pub uninterp spec fn encoded_gif(frames: Seq<(u32, u32, Seq<u8>, u32, u32)>) -> Option<Seq<u8>>;

/// Encodes frames as a looping GIF (`RgbaImage::from_raw`,
/// `Frame::from_parts` at offset 0, `Delay::from_numer_denom_ms`, then
/// `GifEncoder` with `Repeat::Infinite` and `encode_frames`). The contract
/// names the result. `Delay` panics on a zero denominator, and the GIF frame
/// conversion panics unless each buffer holds exactly four bytes per pixel.
#[verifier::external_body]
fn encode_gif(frames: Vec<GifFrame>) -> (r: Option<Vec<u8>>)
    requires
        forall|k: int|
            0 <= k < frames@.len() ==> #[trigger] frames@[k].pixels@.len() == 4
                * frames@[k].width * frames@[k].height && frames@[k].delay_denom != 0,
    ensures
        opt_bytes(r) == encoded_gif(gif_frames_view(frames@)),
{
    let mut parts = Vec::new();
    for f in frames {
        let img = image::RgbaImage::from_raw(f.width, f.height, f.pixels)?;
        let delay = image::Delay::from_numer_denom_ms(f.delay_numer, f.delay_denom);
        parts.push(image::Frame::from_parts(img, 0, 0, delay));
    }
    let mut buf = Vec::new();
    {
        let mut encoder = image::codecs::gif::GifEncoder::new(&mut buf);
        encoder.set_repeat(image::codecs::gif::Repeat::Infinite).ok()?;
        encoder.encode_frames(parts).ok()?;
    }
    Some(buf)
}

/// A decoded frame redrawn: its border nudged, encoded as PNG, decoded
/// again, with its delay kept.
pub open spec fn frame_redrawn(
    w: u32,
    h: u32,
    raw: (Seq<u8>, u32, u32),
    out: (u32, u32, Seq<u8>, u32, u32),
) -> bool {
    &&& exists|p: Seq<u8>|
        edges_nudged(w, h, raw.0, p) && decoded_image(png_or_fallback(w, h, p)) == Some(
            (out.0, out.1, out.2),
        )
    &&& out.3 == raw.1
    &&& out.4 == raw.2
}

/// The outcome for a GIF: nothing when it does not decode or a frame does
/// not fit the canvas; otherwise, when there is an outcome, the looping GIF
/// of the redrawn frames.
pub open spec fn gif_redrawn(bytes: Seq<u8>, out: Option<Seq<u8>>) -> bool {
    match decoded_gif(bytes) {
        None => out is None,
        Some((w, h, frames)) => {
            &&& (exists|k: int| 0 <= k < frames.len() && !redrawable(w, h, #[trigger] frames[k].0))
                ==> out is None
            &&& out matches Some(o) ==> exists|nf: Seq<(u32, u32, Seq<u8>, u32, u32)>|
                nf.len() == frames.len() && (forall|k: int|
                    0 <= k < frames.len() ==> #[trigger] frame_redrawn(w, h, frames[k], nf[k]))
                    && encoded_gif(nf) == Some(o)
            &&& (forall|k: int| 0 <= k < frames.len() ==> redrawable(w, h, #[trigger] frames[k].0))
                && out is None ==> gif_failure_explained(w, h, frames)
        },
    }
}

/// Why redrawing decodable, fitting frames gave nothing: the PNG of some
/// frame, border nudged, did not decode, or the GIF encoder failed on the
/// redrawn frames.
pub open spec fn gif_failure_explained(w: u32, h: u32, frames: Seq<(Seq<u8>, u32, u32)>) -> bool {
    ||| exists|k: int, p: Seq<u8>|
        0 <= k < frames.len() && #[trigger] edges_nudged(w, h, frames[k].0, p) && decoded_image(
            png_or_fallback(w, h, p),
        ) is None
    ||| exists|nf: Seq<(u32, u32, Seq<u8>, u32, u32)>|
        nf.len() == frames.len() && (forall|k: int|
            0 <= k < frames.len() ==> #[trigger] frame_redrawn(w, h, frames[k], nf[k]))
            && #[trigger] encoded_gif(nf) is None
}

/// The views of optional frames to encode.
pub open spec fn opt_frames(v: Option<Vec<GifFrame>>) -> Option<Seq<(u32, u32, Seq<u8>, u32, u32)>> {
    match v {
        Some(fs) => Some(gif_frames_view(fs@)),
        None => None,
    }
}

/// The outcome of redrawing decoded frames one by one: nothing when a frame
/// does not fit the canvas; otherwise each frame redrawn, unless the PNG of
/// some frame, border nudged, does not decode.
pub open spec fn frames_redrawn(
    w: u32,
    h: u32,
    frames: Seq<(Seq<u8>, u32, u32)>,
    out: Option<Seq<(u32, u32, Seq<u8>, u32, u32)>>,
) -> bool {
    &&& (exists|k: int| 0 <= k < frames.len() && !redrawable(w, h, #[trigger] frames[k].0))
        ==> out is None
    &&& out matches Some(nf) ==> nf.len() == frames.len() && forall|k: int|
        0 <= k < frames.len() ==> #[trigger] frame_redrawn(w, h, frames[k], nf[k])
    &&& (forall|k: int| 0 <= k < frames.len() ==> redrawable(w, h, #[trigger] frames[k].0))
        && out is None ==> exists|k: int, p: Seq<u8>|
        0 <= k < frames.len() && #[trigger] edges_nudged(w, h, frames[k].0, p) && decoded_image(
            png_or_fallback(w, h, p),
        ) is None
}

/// Redraws every frame of a decoded GIF: its border nudged, encoded as PNG
/// and decoded again, with its delay kept.
pub fn redraw_gif_frames(g: &DecodedGif) -> (r: Option<Vec<GifFrame>>)
    ensures
        frames_redrawn(g.width, g.height, raw_frames_view(g.frames@), opt_frames(r)),
        r matches Some(v) ==> forall|k: int|
            0 <= k < v@.len() ==> #[trigger] v@[k].pixels@.len() == 4 * v@[k].width * v@[k].height,
{
    let ghost frames = raw_frames_view(g.frames@);
    let w = g.width;
    let h = g.height;
    let need = rgba_len(w, h);
    let mut out: Vec<GifFrame> = Vec::new();
    let mut k: usize = 0;
    while k < g.frames.len()
        invariant
            k <= g.frames@.len(),
            frames == raw_frames_view(g.frames@),
            w == g.width,
            h == g.height,
            need == 4 * w * h,
            forall|j: int| 0 <= j < k ==> redrawable(w, h, #[trigger] frames[j].0),
            out@.len() == k,
            forall|j: int|
                0 <= j < k ==> #[trigger] frame_redrawn(w, h, frames[j], gif_frames_view(out@)[j]),
            forall|j: int|
                0 <= j < k ==> #[trigger] out@[j].pixels@.len() == 4 * out@[j].width * out@[j].height,
        decreases g.frames@.len() - k,
    {
        let f = &g.frames[k];
        if (f.pixels.len() as u128) != need || !walk_defined(w, h) {
            assert(!redrawable(w, h, frames[k as int].0));
            return None;
        }
        let copy = vstd::slice::slice_to_vec(f.pixels.as_slice());
        let img = RgbaImageData { width: w, height: h, pixels: copy };
        let png = modify_edge_pixels(&img);
        let redrawn = match decode_image(png.as_slice()) {
            Some(d) => d,
            None => {
                proof {
                    let p = choose|p: Seq<u8>|
                        edges_nudged(w, h, img.pixels@, p) && png@ == png_or_fallback(w, h, p);
                    assert(img.pixels@ == frames[k as int].0);
                    assert(edges_nudged(w, h, frames[k as int].0, p) && decoded_image(
                        png_or_fallback(w, h, p),
                    ) is None);
                }
                return None;
            },
        };
        proof {
            let p = choose|p: Seq<u8>|
                edges_nudged(w, h, img.pixels@, p) && png@ == png_or_fallback(w, h, p);
            assert(img.pixels@ == frames[k as int].0);
            assert(edges_nudged(w, h, frames[k as int].0, p) && decoded_image(
                png_or_fallback(w, h, p),
            ) == Some((redrawn.width, redrawn.height, redrawn.pixels@)));
        }
        let ghost before = gif_frames_view(out@);
        out.push(
            GifFrame {
                width: redrawn.width,
                height: redrawn.height,
                pixels: redrawn.pixels,
                delay_numer: f.delay_numer,
                delay_denom: f.delay_denom,
            },
        );
        assert(gif_frames_view(out@) =~= before.push(gif_frames_view(out@)[k as int]));
        assert(frame_redrawn(w, h, frames[k as int], gif_frames_view(out@)[k as int]));
        k = k + 1;
    }
    assert(opt_frames(Some(out)) == Some(gif_frames_view(out@)));
    Some(out)
}

/// Redraws every frame of a GIF with its border nudged and encodes the
/// frames again as a looping GIF.
pub fn process_gif_image(bytes: &[u8]) -> (r: Option<Vec<u8>>)
    ensures
        gif_redrawn(bytes@, opt_bytes(r)),
{
    let g = match decode_gif(bytes) {
        Some(g) => g,
        None => return None,
    };
    let ghost frames = raw_frames_view(g.frames@);
    let out = match redraw_gif_frames(&g) {
        Some(out) => out,
        None => {
            assert(frames_redrawn(g.width, g.height, frames, None));
            return None;
        },
    };
    let ghost nf = gif_frames_view(out@);
    assert(frames_redrawn(g.width, g.height, frames, Some(nf)));
    assert forall|k: int| 0 <= k < out@.len() implies #[trigger] out@[k].pixels@.len() == 4
        * out@[k].width * out@[k].height && out@[k].delay_denom != 0 by {
        assert(frame_redrawn(g.width, g.height, frames[k], nf[k]));
        assert(g.frames@[k].delay_denom != 0);
    }
    let r = encode_gif(out);
    assert(r is None ==> encoded_gif(nf) is None);
    r
}

/// `bytes` starts with `GIF`.
pub open spec fn gif_signature(bytes: Seq<u8>) -> bool {
    bytes.len() >= 3 && bytes[0] == 71 && bytes[1] == 73 && bytes[2] == 70
}

/// A download is a GIF when its content type mentions `gif` or its bytes
/// start with the GIF signature.
pub open spec fn is_gif_spec(content_type: Seq<char>, bytes: Seq<u8>) -> bool {
    contains_seq(content_type, "gif"@) || gif_signature(bytes)
}

/// Whether a download is a GIF.
pub fn is_gif(content_type: &str, bytes: &[u8]) -> (r: bool)
    ensures
        r == is_gif_spec(content_type@, bytes@),
{
    let ct = chars_of(content_type);
    contains_str(ct.as_slice(), "gif") || (bytes.len() >= 3 && bytes[0] == 71 && bytes[1] == 73
        && bytes[2] == 70)
}

/// Redraws a downloaded image: GIFs frame by frame, other images as one
/// PNG, each with its border nudged.
pub fn transform_image(content_type: &str, bytes: &[u8]) -> (r: Option<Vec<u8>>)
    ensures
        if is_gif_spec(content_type@, bytes@) {
            gif_redrawn(bytes@, opt_bytes(r))
        } else {
            still_redrawn(bytes@, opt_bytes(r))
        },
{
    if is_gif(content_type, bytes) {
        process_gif_image(bytes)
    } else {
        redraw_still_image(bytes)
    }
}

/// The base64 digit for `v < 64` (standard alphabet).
pub open spec fn b64_digit(v: int) -> char {
    if v < 26 {
        (65 + v) as char
    } else if v < 52 {
        (71 + v) as char
    } else if v < 62 {
        (v - 4) as char
    } else if v == 62 {
        '+'
    } else {
        '/'
    }
}

/// Standard base64 with `=` padding.
pub open spec fn base64_spec(b: Seq<u8>) -> Seq<char>
    decreases b.len(),
{
    if b.len() == 0 {
        Seq::<char>::empty()
    } else {
        let b0 = b[0] as int;
        let b1 = if b.len() > 1 {
            b[1] as int
        } else {
            0
        };
        let b2 = if b.len() > 2 {
            b[2] as int
        } else {
            0
        };
        let c0 = b64_digit(b0 / 4);
        let c1 = b64_digit((b0 % 4) * 16 + b1 / 16);
        let c2 = b64_digit((b1 % 16) * 4 + b2 / 64);
        let c3 = b64_digit(b2 % 64);
        if b.len() == 1 {
            seq![c0, c1, '=', '=']
        } else if b.len() == 2 {
            seq![c0, c1, c2, '=']
        } else {
            seq![c0, c1, c2, c3] + base64_spec(b.skip(3))
        }
    }
}

/// Standard base64 with padding (`base64::engine::general_purpose::STANDARD`
/// and `Engine::encode`); the contract states the encoding of RFC 4648.
#[verifier::external_body]
fn base64_encode(bytes: &[u8]) -> (s: String)
    ensures
        s@ == base64_spec(bytes@),
{
    base64::engine::general_purpose::STANDARD.encode(bytes)
}

/// Media sent inline: `base64://` followed by the base64 of the bytes.
pub fn inline_media_file(bytes: &[u8]) -> (s: String)
    ensures
        s@ == "base64://"@ + base64_spec(bytes@),
{
    let mut s = string_of("base64://");
    let b = base64_encode(bytes);
    s.append(b.as_str());
    s
}

/// A web address.
pub open spec fn is_web_url(s: Seq<char>) -> bool {
    has_prefix(s, "http://"@) || has_prefix(s, "https://"@)
}

/// Where to fetch a segment's media: its `url` when that is a non-empty web
/// address, else its `file` when that is a web address.
pub open spec fn media_url_of(url: Option<Seq<char>>, file: Option<Seq<char>>) -> Option<Seq<char>> {
    match url {
        Some(u) if u.len() > 0 && is_web_url(u) => Some(u),
        _ => match file {
            Some(f) if is_web_url(f) => Some(f),
            _ => None,
        },
    }
}

/// Whether an optional string is a web address (and, when asked, not empty).
fn web_url(s: &Option<String>, nonempty: bool) -> (r: bool)
    ensures
        r == (s matches Some(x) && (!nonempty || x@.len() > 0) && is_web_url(x@)),
{
    match s {
        Some(x) => {
            let c = chars_of(x.as_str());
            (!nonempty || c.len() > 0) && (starts_with(c.as_slice(), "http://") || starts_with(
                c.as_slice(),
                "https://",
            ))
        },
        None => false,
    }
}

/// Where to fetch a segment's media.
pub fn extract_media_url(seg: &SegmentInfo) -> (r: Option<String>)
    ensures
        opt_view(r) == media_url_of(opt_view(seg.url), opt_view(seg.file)),
{
    if web_url(&seg.url, true) {
        match &seg.url {
            Some(u) => Some(string_of(u.as_str())),
            None => None,
        }
    } else if web_url(&seg.file, false) {
        match &seg.file {
            Some(f) => Some(string_of(f.as_str())),
            None => None,
        }
    } else {
        None
    }
}

/// The kinds of segment whose media is redrawn.
#[derive(Clone, Copy, Debug, PartialEq, Eq, Structural)]
pub enum MediaKind {
    Image,
    Video,
}

/// The media kind named by a segment type.
pub open spec fn media_kind_of(kind: Option<Seq<char>>) -> Option<MediaKind> {
    if kind == Some("image"@) {
        Some(MediaKind::Image)
    } else if kind == Some("video"@) {
        Some(MediaKind::Video)
    } else {
        None
    }
}

/// The media kind of a segment, if its media is redrawn.
pub fn media_kind(seg: &SegmentInfo) -> (r: Option<MediaKind>)
    ensures
        r == media_kind_of(opt_view(seg.kind)),
{
    match &seg.kind {
        Some(k) => if crate::text::str_eq(k.as_str(), "image") {
            Some(MediaKind::Image)
        } else if crate::text::str_eq(k.as_str(), "video") {
            Some(MediaKind::Video)
        } else {
            None
        },
        None => None,
    }
}

/// The file a media segment is sent with: the redrawn bytes inline when
/// there are some, else the segment's own non-empty `url`; nothing means the
/// segment is sent unchanged.
pub open spec fn replacement_file_of(processed: Option<Seq<u8>>, url: Option<Seq<char>>) -> Option<Seq<char>> {
    match processed {
        Some(b) => Some("base64://"@ + base64_spec(b)),
        None => match url {
            Some(u) if u.len() > 0 => Some(u),
            _ => None,
        },
    }
}

/// The file a media segment is sent with, after redrawing was tried.
pub fn replacement_file(processed: &Option<Vec<u8>>, seg: &SegmentInfo) -> (r: Option<String>)
    ensures
        opt_view(r) == replacement_file_of(opt_bytes(*processed), opt_view(seg.url)),
{
    match processed {
        Some(b) => Some(inline_media_file(b.as_slice())),
        None => match &seg.url {
            Some(u) => if u.as_str().unicode_len() > 0 {
                Some(string_of(u.as_str()))
            } else {
                None
            },
            None => None,
        },
    }
}

} // verus!
