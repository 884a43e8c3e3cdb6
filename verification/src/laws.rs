//! Properties of the model that hold beyond any single call: averaging a
//! uniform region, degenerate regions, the frame of a rendering pass, and
//! the coincidence of adjacent borders.

use vstd::prelude::*;
use vstd::arithmetic::div_mod::lemma_div_multiples_vanish;
use crate::model::{
    agrees_outside_rect, avg_chan, inside_rect, on_border, pixel_offset, rect_sum, render_spec,
    row_sum, sample_count, with_border, lemma_byte_decode, lemma_split_interval,
};

verus! {

/// Channel `c` holds the value `v` at every pixel of `[x1, x2) x [y1, y2)`.
pub open spec fn uniform_chan(
    buf: Seq<u8>,
    w: int,
    x1: int,
    y1: int,
    x2: int,
    y2: int,
    c: int,
    v: u8,
) -> bool {
    forall|x: int, y: int|
        #![trigger pixel_offset(w, x, y)]
        x1 <= x < x2 && y1 <= y < y2 ==> buf[pixel_offset(w, x, y) + c] == v
}

proof fn lemma_uniform_row_sum(buf: Seq<u8>, w: int, y: int, x1: int, x2: int, c: int, v: u8)
    requires
        x1 <= x2,
        forall|x: int|
            #![trigger pixel_offset(w, x, y)]
            x1 <= x < x2 ==> buf[pixel_offset(w, x, y) + c] == v,
    ensures
        row_sum(buf, w, y, x1, x2, c) == (x2 - x1) * v,
    decreases x2 - x1,
{
    if x2 <= x1 {
        assert((x2 - x1) * v == 0) by (nonlinear_arith)
            requires x1 == x2;
    } else {
        lemma_uniform_row_sum(buf, w, y, x1, x2 - 1, c, v);
        assert((x2 - 1 - x1) * v + v == (x2 - x1) * v) by (nonlinear_arith);
    }
}

proof fn lemma_uniform_rect_sum(
    buf: Seq<u8>,
    w: int,
    x1: int,
    y1: int,
    x2: int,
    y2: int,
    c: int,
    v: u8,
)
    requires
        x1 <= x2,
        y1 <= y2,
        uniform_chan(buf, w, x1, y1, x2, y2, c, v),
    ensures
        rect_sum(buf, w, x1, y1, x2, y2, c) == sample_count(x1, y1, x2, y2) * v,
    decreases y2 - y1,
{
    if y2 <= y1 {
        assert(sample_count(x1, y1, x2, y2) * v == 0) by (nonlinear_arith)
            requires y1 == y2;
    } else {
        lemma_uniform_rect_sum(buf, w, x1, y1, x2, y2 - 1, c, v);
        lemma_uniform_row_sum(buf, w, y2 - 1, x1, x2, c, v);
        assert(sample_count(x1, y1, x2, y2 - 1) * v + (x2 - x1) * v
            == sample_count(x1, y1, x2, y2) * v) by (nonlinear_arith);
    }
}

/// Averaging is exact on a uniform region: if channel `c` holds `v` at every
/// sampled pixel of a non-degenerate rectangle, the average of channel `c`
/// is exactly `v`.
pub proof fn lemma_uniform_average(
    buf: Seq<u8>,
    w: int,
    x1: int,
    y1: int,
    x2: int,
    y2: int,
    c: int,
    v: u8,
)
    requires
        x1 < x2,
        y1 < y2,
        uniform_chan(buf, w, x1, y1, x2, y2, c, v),
    ensures
        avg_chan(buf, w, x1, y1, x2, y2, c) == v,
{
    let cnt: int = sample_count(x1, y1, x2, y2);
    lemma_uniform_rect_sum(buf, w, x1, y1, x2, y2, c, v);
    assert(cnt > 0) by (nonlinear_arith)
        requires x1 < x2, y1 < y2, cnt == (x2 - x1) * (y2 - y1);
    lemma_div_multiples_vanish(v as int, cnt);
}

/// A degenerate rectangle samples no pixel, and its average is `(0, 0, 0)`
/// in every channel rather than a fault.
pub proof fn lemma_zero_area_average(
    buf: Seq<u8>,
    w: int,
    x1: int,
    y1: int,
    x2: int,
    y2: int,
    c: int,
)
    requires
        x1 == x2 || y1 == y2,
    ensures
        avg_chan(buf, w, x1, y1, x2, y2, c) == 0,
{
    assert(sample_count(x1, y1, x2, y2) == 0) by (nonlinear_arith)
        requires x1 == x2 || y1 == y2;
}

/// A rendering pass keeps the buffer's length, and no byte whose pixel lies
/// outside the closed rectangle is touched.
pub proof fn lemma_render_spec_frame(
    input: Seq<u8>,
    out: Seq<u8>,
    w: int,
    x1: int,
    y1: int,
    x2: int,
    y2: int,
    threshold: int,
    min_size: int,
)
    requires
        1 <= min_size,
        1 <= w,
        x1 <= x2,
        y1 <= y2,
    ensures
        render_spec(input, out, w, x1, y1, x2, y2, threshold, min_size).len() == out.len(),
        agrees_outside_rect(
            out,
            render_spec(input, out, w, x1, y1, x2, y2, threshold, min_size),
            w,
            x1,
            y1,
            x2,
            y2,
        ),
    decreases (x2 - x1) + (y2 - y1),
{
    let res: Seq<u8> = render_spec(input, out, w, x1, y1, x2, y2, threshold, min_size);
    let r: int = avg_chan(input, w, x1, y1, x2, y2, 0);
    let g: int = avg_chan(input, w, x1, y1, x2, y2, 1);
    let b: int = avg_chan(input, w, x1, y1, x2, y2, 2);
    let bordered: Seq<u8> = if r + g + b > threshold {
        with_border(out, w, x1, y1, x2, y2, r as u8, g as u8, b as u8)
    } else {
        out
    };
    assert(agrees_outside_rect(out, bordered, w, x1, y1, x2, y2));
    if x2 - x1 > min_size && y2 - y1 > min_size {
        lemma_split_interval(x1, x2);
        lemma_split_interval(y1, y2);
        let mx: int = (x1 + x2) / 2;
        let my: int = (y1 + y2) / 2;
        let o1: Seq<u8> = render_spec(input, bordered, w, x1, y1, mx, my, threshold, min_size);
        let o2: Seq<u8> = render_spec(input, o1, w, mx, y1, x2, my, threshold, min_size);
        let o3: Seq<u8> = render_spec(input, o2, w, x1, my, mx, y2, threshold, min_size);
        lemma_render_spec_frame(input, bordered, w, x1, y1, mx, my, threshold, min_size);
        lemma_render_spec_frame(input, o1, w, mx, y1, x2, my, threshold, min_size);
        lemma_render_spec_frame(input, o2, w, x1, my, mx, y2, threshold, min_size);
        lemma_render_spec_frame(input, o3, w, mx, my, x2, y2, threshold, min_size);
        assert(res == render_spec(input, o3, w, mx, my, x2, y2, threshold, min_size));
        assert forall|i: int|
            0 <= i < out.len() && !(#[trigger] inside_rect(w, x1, y1, x2, y2, i))
                implies out[i] == res[i] by {
            assert(!inside_rect(w, x1, y1, mx, my, i));
            assert(!inside_rect(w, mx, y1, x2, my, i));
            assert(!inside_rect(w, x1, my, mx, y2, i));
            assert(!inside_rect(w, mx, my, x2, y2, i));
        };
    }
}

/// Two horizontally adjacent rectangles that share the boundary column `mx`
/// both draw that column over their common rows; drawing the left border
/// and then the right one leaves the right border's color there.
pub proof fn lemma_border_coincidence(
    out: Seq<u8>,
    w: int,
    x1: int,
    y1: int,
    mx: int,
    x2: int,
    y2: int,
    rl: u8,
    gl: u8,
    bl: u8,
    rr: u8,
    gr: u8,
    br: u8,
    y: int,
)
    requires
        1 <= w,
        0 <= x1 <= mx <= x2 < w,
        0 <= y1 <= y < y2,
        pixel_offset(w, mx, y) + 4 <= out.len(),
    ensures
        on_border(x1, y1, mx, y2, mx, y),
        on_border(mx, y1, x2, y2, mx, y),
        with_border(with_border(out, w, x1, y1, mx, y2, rl, gl, bl), w, mx, y1, x2, y2, rr, gr, br)[
            pixel_offset(w, mx, y)] == br,
        with_border(with_border(out, w, x1, y1, mx, y2, rl, gl, bl), w, mx, y1, x2, y2, rr, gr, br)[
            pixel_offset(w, mx, y) + 1] == gr,
        with_border(with_border(out, w, x1, y1, mx, y2, rl, gl, bl), w, mx, y1, x2, y2, rr, gr, br)[
            pixel_offset(w, mx, y) + 2] == rr,
        with_border(with_border(out, w, x1, y1, mx, y2, rl, gl, bl), w, mx, y1, x2, y2, rr, gr, br)[
            pixel_offset(w, mx, y) + 3] == 255,
{
    lemma_byte_decode(w, mx, y, 0);
    lemma_byte_decode(w, mx, y, 1);
    lemma_byte_decode(w, mx, y, 2);
    lemma_byte_decode(w, mx, y, 3);
}

} // verus!
