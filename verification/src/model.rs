//! Mathematical model of the pixel buffers and of the rendering pass.
//!
//! A pixel buffer is a `Seq<u8>` holding a row-major grid of four-byte
//! pixels; a rectangle is a pair of inclusive corners.  The functions here
//! define the sampled channel sums, the truncated average color, the border
//! written for a rectangle, and the effect of one full recursive rendering
//! pass, all as pure mathematics that the executable code is proved against.

use vstd::prelude::*;
use vstd::arithmetic::div_mod::{
    lemma_fundamental_div_mod, lemma_fundamental_div_mod_converse_div,
    lemma_fundamental_div_mod_converse_mod, lemma_mod_bound,
};

verus! {

/// Byte offset of the first channel of the pixel at column `x`, row `y`,
/// in a buffer with `w` pixels per row and four bytes per pixel.
pub open spec fn pixel_offset(w: int, x: int, y: int) -> int {
    y * w * 4 + x * 4
}

/// Row of the pixel that byte `i` belongs to.
pub open spec fn byte_row(i: int, w: int) -> int {
    i / (w * 4)
}

/// Column of the pixel that byte `i` belongs to.
pub open spec fn byte_col(i: int, w: int) -> int {
    (i % (w * 4)) / 4
}

/// Channel of byte `i` within its pixel.
pub open spec fn byte_chan(i: int) -> int {
    i % 4
}

/// The rectangle `(x1, y1)-(x2, y2)` (inclusive corners) lies inside a
/// buffer of `len` bytes with `w` pixels per row.  The buffer is also small
/// enough that a sum of one channel over any of its regions fits in an
/// unsigned 32-bit accumulator (`len / 4 * 255 < 2^32`).
pub open spec fn rect_in_buffer(len: int, w: int, x1: int, y1: int, x2: int, y2: int) -> bool {
    &&& 1 <= w
    &&& 0 <= x1 <= x2 < w
    &&& 0 <= y1 <= y2
    &&& (y2 + 1) * (w * 4) <= len
    &&& len <= 0x400_0000
}

/// Sum of channel `c` over the pixels of row `y` with columns in `[x1, x2)`.
pub open spec fn row_sum(buf: Seq<u8>, w: int, y: int, x1: int, x2: int, c: int) -> int
    decreases x2 - x1,
{
    if x2 <= x1 {
        0
    } else {
        row_sum(buf, w, y, x1, x2 - 1, c) + buf[pixel_offset(w, x2 - 1, y) + c]
    }
}

/// Sum of channel `c` over the pixels in `[x1, x2) x [y1, y2)`.
pub open spec fn rect_sum(buf: Seq<u8>, w: int, x1: int, y1: int, x2: int, y2: int, c: int) -> int
    decreases y2 - y1,
{
    if y2 <= y1 {
        0
    } else {
        rect_sum(buf, w, x1, y1, x2, y2 - 1, c) + row_sum(buf, w, y2 - 1, x1, x2, c)
    }
}

/// Number of pixels sampled from `[x1, x2) x [y1, y2)`.
pub open spec fn sample_count(x1: int, y1: int, x2: int, y2: int) -> int {
    (x2 - x1) * (y2 - y1)
}

/// Truncated mean of channel `c` over the sampled pixels; a region that
/// samples no pixel averages to zero rather than faulting.
pub open spec fn avg_chan(buf: Seq<u8>, w: int, x1: int, y1: int, x2: int, y2: int, c: int) -> int {
    if sample_count(x1, y1, x2, y2) <= 0 {
        0
    } else {
        rect_sum(buf, w, x1, y1, x2, y2, c) / sample_count(x1, y1, x2, y2)
    }
}

/// Whether pixel `(x, y)` lies on the one-pixel border drawn for rectangle
/// `(x1, y1)-(x2, y2)`: rows `y1` and `y2` over columns `[x1, x2)`, and
/// columns `x1` and `x2` over rows `[y1, y2)`.  The corner `(x2, y2)` is on
/// neither half-open range and is never drawn.
pub open spec fn on_border(x1: int, y1: int, x2: int, y2: int, x: int, y: int) -> bool {
    ||| (x1 <= x < x2 && (y == y1 || y == y2))
    ||| (y1 <= y < y2 && (x == x1 || x == x2))
}

/// The byte written at channel `c` of a border pixel with average color
/// `(r, g, b)`: blue first, then green, then red, then an opaque alpha.
pub open spec fn border_byte(r: u8, g: u8, b: u8, c: int) -> u8 {
    if c == 0 {
        b
    } else if c == 1 {
        g
    } else if c == 2 {
        r
    } else {
        255
    }
}

/// `out` with the border of rectangle `(x1, y1)-(x2, y2)` drawn in color
/// `(r, g, b)`; every other byte is unchanged.
pub open spec fn with_border(
    out: Seq<u8>,
    w: int,
    x1: int,
    y1: int,
    x2: int,
    y2: int,
    r: u8,
    g: u8,
    b: u8,
) -> Seq<u8> {
    Seq::new(
        out.len(),
        |i: int|
            if on_border(x1, y1, x2, y2, byte_col(i, w), byte_row(i, w)) {
                border_byte(r, g, b, byte_chan(i))
            } else {
                out[i]
            },
    )
}

/// One full rendering pass over rectangle `(x1, y1)-(x2, y2)`: draw the
/// region's border when its summed average color strictly exceeds
/// `threshold`, then, while both extents exceed `min_size`, recurse into the
/// four quadrants around the floored midpoints, in the fixed order top-left,
/// top-right, bottom-left, bottom-right.
pub open spec fn render_spec(
    input: Seq<u8>,
    out: Seq<u8>,
    w: int,
    x1: int,
    y1: int,
    x2: int,
    y2: int,
    threshold: int,
    min_size: int,
) -> Seq<u8>
    decreases (x2 - x1) + (y2 - y1)
        when 1 <= min_size && x1 <= x2 && y1 <= y2
{
    let r: int = avg_chan(input, w, x1, y1, x2, y2, 0);
    let g: int = avg_chan(input, w, x1, y1, x2, y2, 1);
    let b: int = avg_chan(input, w, x1, y1, x2, y2, 2);
    let bordered: Seq<u8> = if r + g + b > threshold {
        with_border(out, w, x1, y1, x2, y2, r as u8, g as u8, b as u8)
    } else {
        out
    };
    if x2 - x1 > min_size && y2 - y1 > min_size {
        proof {
            lemma_split_interval(x1, x2);
            lemma_split_interval(y1, y2);
        }
        let mx: int = (x1 + x2) / 2;
        let my: int = (y1 + y2) / 2;
        let o1: Seq<u8> = render_spec(input, bordered, w, x1, y1, mx, my, threshold, min_size);
        let o2: Seq<u8> = render_spec(input, o1, w, mx, y1, x2, my, threshold, min_size);
        let o3: Seq<u8> = render_spec(input, o2, w, x1, my, mx, y2, threshold, min_size);
        render_spec(input, o3, w, mx, my, x2, y2, threshold, min_size)
    } else {
        bordered
    }
}

/// The floored midpoint of an interval lies inside it, and splits an
/// interval of extent at least two into two strictly shorter halves.
pub proof fn lemma_split_interval(a: int, b: int)
    requires
        a <= b,
    ensures
        a <= (a + b) / 2 <= b,
        a + 2 <= b ==> a < (a + b) / 2 < b,
{
    lemma_fundamental_div_mod(a + b, 2);
    lemma_mod_bound(a + b, 2);
}

/// A byte index decomposes into the row, column and channel of the pixel it
/// belongs to, and that decomposition lands inside the grid.
pub proof fn lemma_byte_encode(i: int, w: int)
    requires
        1 <= w,
        0 <= i,
    ensures
        i == byte_row(i, w) * (w * 4) + byte_col(i, w) * 4 + byte_chan(i),
        0 <= byte_row(i, w),
        0 <= byte_col(i, w) < w,
        0 <= byte_chan(i) < 4,
        byte_chan(i) == i % (w * 4) % 4,
        pixel_offset(w, byte_col(i, w), byte_row(i, w)) == i - byte_chan(i),
{
    lemma_fundamental_div_mod(i, w * 4);
    lemma_mod_bound(i, w * 4);
    let q: int = i / (w * 4);
    let rem: int = i % (w * 4);
    lemma_fundamental_div_mod(rem, 4);
    lemma_mod_bound(rem, 4);
    let x: int = rem / 4;
    let c: int = rem % 4;
    assert(x < w) by {
        assert(x * 4 + c < w * 4);
        assert(x * 4 <= x * 4 + c);
        assert(x * 4 < w * 4);
        assert(x < w) by (nonlinear_arith)
            requires x * 4 < w * 4;
    };
    assert(0 <= x) by {
        assert(x * 4 + c >= 0);
        assert(x >= 0) by (nonlinear_arith)
            requires x * 4 + c >= 0, 0 <= c < 4;
    };
    assert(0 <= q) by {
        assert(q * (w * 4) + rem >= 0);
        assert(q >= 0) by (nonlinear_arith)
            requires q * (w * 4) + rem >= 0, 0 <= rem < w * 4, 1 <= w;
    };
    assert(i == (q * w + x) * 4 + c) by (nonlinear_arith)
        requires i == q * (w * 4) + rem, rem == x * 4 + c;
    lemma_fundamental_div_mod_converse_mod(i, 4, q * w + x, c);
    assert(q * w * 4 == q * (w * 4)) by (nonlinear_arith);
    assert(pixel_offset(w, x, q) == q * (w * 4) + x * 4);
}

/// Conversely, the byte at channel `c` of pixel `(x, y)` decodes back to
/// that row, column and channel.
pub proof fn lemma_byte_decode(w: int, x: int, y: int, c: int)
    requires
        1 <= w,
        0 <= x < w,
        0 <= y,
        0 <= c < 4,
    ensures
        byte_row(pixel_offset(w, x, y) + c, w) == y,
        byte_col(pixel_offset(w, x, y) + c, w) == x,
        byte_chan(pixel_offset(w, x, y) + c) == c,
{
    let i: int = pixel_offset(w, x, y) + c;
    let rem: int = x * 4 + c;
    assert(0 <= rem < w * 4);
    assert(i == y * (w * 4) + rem) by (nonlinear_arith)
        requires i == y * w * 4 + x * 4 + c, rem == x * 4 + c;
    lemma_fundamental_div_mod_converse_div(i, w * 4, y, rem);
    lemma_fundamental_div_mod_converse_mod(i, w * 4, y, rem);
    lemma_fundamental_div_mod_converse_div(rem, 4, x, c);
    assert(i == (y * w + x) * 4 + c) by (nonlinear_arith)
        requires i == y * w * 4 + x * 4 + c;
    lemma_fundamental_div_mod_converse_mod(i, 4, y * w + x, c);
}

/// Every channel byte of a pixel inside the rectangle lies inside the buffer.
pub proof fn lemma_pixel_in_buffer(len: int, w: int, x1: int, y1: int, x2: int, y2: int, x: int, y: int)
    requires
        rect_in_buffer(len, w, x1, y1, x2, y2),
        x1 <= x <= x2,
        y1 <= y <= y2,
    ensures
        0 <= pixel_offset(w, x, y),
        pixel_offset(w, x, y) + 4 <= len,
{
    assert(0 <= y * w * 4 + x * 4) by (nonlinear_arith)
        requires 0 <= x, 0 <= y, 1 <= w;
    assert(y * w * 4 + x * 4 + 4 <= (y2 + 1) * (w * 4)) by (nonlinear_arith)
        requires y <= y2, x < w, 0 <= x, 0 <= y, 1 <= w;
}

/// A row sum is non-negative and bounded by 255 per sampled pixel.
pub proof fn lemma_row_sum_bounds(buf: Seq<u8>, w: int, y: int, x1: int, x2: int, c: int)
    requires
        x1 <= x2,
    ensures
        0 <= row_sum(buf, w, y, x1, x2, c) <= (x2 - x1) * 255,
    decreases x2 - x1,
{
    if x2 <= x1 {
        assert((x2 - x1) * 255 == 0) by (nonlinear_arith)
            requires x1 == x2;
    } else {
        lemma_row_sum_bounds(buf, w, y, x1, x2 - 1, c);
        assert((x2 - 1 - x1) * 255 + 255 == (x2 - x1) * 255) by (nonlinear_arith);
    }
}

/// A rectangle sum is non-negative and bounded by 255 per sampled pixel.
pub proof fn lemma_rect_sum_bounds(buf: Seq<u8>, w: int, x1: int, y1: int, x2: int, y2: int, c: int)
    requires
        x1 <= x2,
        y1 <= y2,
    ensures
        0 <= rect_sum(buf, w, x1, y1, x2, y2, c) <= sample_count(x1, y1, x2, y2) * 255,
    decreases y2 - y1,
{
    if y2 <= y1 {
        assert(sample_count(x1, y1, x2, y2) * 255 == 0) by (nonlinear_arith)
            requires y1 == y2;
    } else {
        lemma_rect_sum_bounds(buf, w, x1, y1, x2, y2 - 1, c);
        lemma_row_sum_bounds(buf, w, y2 - 1, x1, x2, c);
        assert(sample_count(x1, y1, x2, y2 - 1) * 255 + (x2 - x1) * 255
            == sample_count(x1, y1, x2, y2) * 255) by (nonlinear_arith);
    }
}

/// An average channel value lies within the range of one channel byte.
pub proof fn lemma_avg_chan_bounds(buf: Seq<u8>, w: int, x1: int, y1: int, x2: int, y2: int, c: int)
    requires
        x1 <= x2,
        y1 <= y2,
    ensures
        0 <= avg_chan(buf, w, x1, y1, x2, y2, c) <= 255,
{
    let cnt: int = sample_count(x1, y1, x2, y2);
    if cnt > 0 {
        lemma_rect_sum_bounds(buf, w, x1, y1, x2, y2, c);
        let s: int = rect_sum(buf, w, x1, y1, x2, y2, c);
        vstd::arithmetic::div_mod::lemma_div_is_ordered(0, s, cnt);
        vstd::arithmetic::div_mod::lemma_div_is_ordered(s, cnt * 255, cnt);
        vstd::arithmetic::div_mod::lemma_div_multiples_vanish(255, cnt);
    }
}

/// The sampled pixel count is non-negative, and summing 255 per sampled
/// pixel stays below `2^32`.
pub proof fn lemma_sample_count_fits(len: int, w: int, x1: int, y1: int, x2: int, y2: int)
    requires
        rect_in_buffer(len, w, x1, y1, x2, y2),
    ensures
        0 <= sample_count(x1, y1, x2, y2),
        sample_count(x1, y1, x2, y2) * 255 < 0x1_0000_0000,
{
    assert(0 <= (x2 - x1) * (y2 - y1)) by (nonlinear_arith)
        requires x1 <= x2, y1 <= y2;
    assert((x2 - x1) * (y2 - y1) * 4 <= (y2 + 1) * (w * 4)) by (nonlinear_arith)
        requires 0 <= x1 <= x2 < w, 0 <= y1 <= y2, 1 <= w;
    assert((x2 - x1) * (y2 - y1) * 255 < 0x1_0000_0000) by (nonlinear_arith)
        requires
            (x2 - x1) * (y2 - y1) * 4 <= 0x400_0000,
            0 <= (x2 - x1) * (y2 - y1);
}

/// The pixel of byte `i` lies inside the closed rectangle `(x1, y1)-(x2, y2)`.
pub open spec fn inside_rect(w: int, x1: int, y1: int, x2: int, y2: int, i: int) -> bool {
    x1 <= byte_col(i, w) <= x2 && y1 <= byte_row(i, w) <= y2
}

/// `a` and `b` have the same length and agree on every byte whose pixel
/// lies outside the closed rectangle `(x1, y1)-(x2, y2)`.
pub open spec fn agrees_outside_rect(
    a: Seq<u8>,
    b: Seq<u8>,
    w: int,
    x1: int,
    y1: int,
    x2: int,
    y2: int,
) -> bool {
    &&& a.len() == b.len()
    &&& forall|i: int|
        0 <= i < a.len() && !(#[trigger] inside_rect(w, x1, y1, x2, y2, i)) ==> a[i] == b[i]
}

} // verus!
