//! Executable rendering pass, verified against the model.

use vstd::prelude::*;
use crate::model::{
    agrees_outside_rect, avg_chan, border_byte, byte_chan, byte_col, byte_row, rect_in_buffer,
    rect_sum, render_spec, row_sum, sample_count, with_border, lemma_avg_chan_bounds,
    lemma_byte_decode, lemma_byte_encode, lemma_pixel_in_buffer, lemma_sample_count_fits,
    lemma_split_interval,
};
use crate::laws::lemma_render_spec_frame;

verus! {

/// Average color of the pixels sampled from a rectangle, one truncated
/// per-channel mean each for red, green and blue; alpha is never sampled.
#[derive(Clone, Copy, PartialEq, Eq, Structural, Debug)]
pub struct AvgColor {
    pub r: u32,
    pub g: u32,
    pub b: u32,
}

/// Writes the four channel bytes of the output pixel starting at `index`:
/// the alpha byte, then red, then green, then blue, landing in the buffer
/// as blue, green, red, alpha.
pub fn set_pixel(output: &mut Vec<u8>, index: usize, r: u8, g: u8, b: u8, a: u8)
    requires
        index + 3 < old(output).len(),
    ensures
        final(output).len() == old(output).len(),
        final(output)@[index as int] == b,
        final(output)@[index as int + 1] == g,
        final(output)@[index as int + 2] == r,
        final(output)@[index as int + 3] == a,
        forall|j: int|
            #![trigger final(output)@[j]]
            0 <= j < old(output).len() && !(index <= j < index + 4) ==> final(output)@[j]
                == old(output)@[j],
{
    output[index + 3] = a;
    output[index + 2] = r;
    output[index + 1] = g;
    output[index] = b;
}

/// Average color of the pixels sampled from `[x1, x2) x [y1, y2)` of the
/// input buffer; a rectangle that samples no pixel averages to `(0, 0, 0)`.
#[verifier::loop_isolation(false)]
pub fn average_color(
    input: &Vec<u8>,
    x1: usize,
    y1: usize,
    x2: usize,
    y2: usize,
    buffer_width: usize,
) -> (avg: AvgColor)
    requires
        rect_in_buffer(
            input@.len() as int,
            buffer_width as int,
            x1 as int,
            y1 as int,
            x2 as int,
            y2 as int,
        ),
    ensures
        avg.r == avg_chan(
            input@,
            buffer_width as int,
            x1 as int,
            y1 as int,
            x2 as int,
            y2 as int,
            0,
        ),
        avg.g == avg_chan(
            input@,
            buffer_width as int,
            x1 as int,
            y1 as int,
            x2 as int,
            y2 as int,
            1,
        ),
        avg.b == avg_chan(
            input@,
            buffer_width as int,
            x1 as int,
            y1 as int,
            x2 as int,
            y2 as int,
            2,
        ),
        avg.r <= 255,
        avg.g <= 255,
        avg.b <= 255,
        x1 == x2 || y1 == y2 ==> avg.r == 0 && avg.g == 0 && avg.b == 0,
{
    let ghost w: int = buffer_width as int;
    let ghost len: int = input@.len() as int;
    let ghost total: int = sample_count(x1 as int, y1 as int, x2 as int, y2 as int);
    proof {
        lemma_sample_count_fits(len, w, x1 as int, y1 as int, x2 as int, y2 as int);
        assert(total <= total * 255) by (nonlinear_arith)
            requires 0 <= total;
    }
    let mut r: u32 = 0;
    let mut g: u32 = 0;
    let mut b: u32 = 0;
    let mut count: u32 = 0;
    let mut y: usize = y1;
    while y < y2
        invariant
            y1 <= y <= y2,
            count == sample_count(x1 as int, y1 as int, x2 as int, y as int),
            count <= total,
            r == rect_sum(input@, w, x1 as int, y1 as int, x2 as int, y as int, 0),
            g == rect_sum(input@, w, x1 as int, y1 as int, x2 as int, y as int, 1),
            b == rect_sum(input@, w, x1 as int, y1 as int, x2 as int, y as int, 2),
            r <= 255 * count,
            g <= 255 * count,
            b <= 255 * count,
        decreases y2 - y,
    {
        let mut x: usize = x1;
        while x < x2
            invariant
                y1 <= y < y2,
                x1 <= x <= x2,
                count == sample_count(x1 as int, y1 as int, x2 as int, y as int) + (x - x1),
                count <= total,
                r == rect_sum(input@, w, x1 as int, y1 as int, x2 as int, y as int, 0)
                    + row_sum(input@, w, y as int, x1 as int, x as int, 0),
                g == rect_sum(input@, w, x1 as int, y1 as int, x2 as int, y as int, 1)
                    + row_sum(input@, w, y as int, x1 as int, x as int, 1),
                b == rect_sum(input@, w, x1 as int, y1 as int, x2 as int, y as int, 2)
                    + row_sum(input@, w, y as int, x1 as int, x as int, 2),
                r <= 255 * count,
                g <= 255 * count,
                b <= 255 * count,
            decreases x2 - x,
        {
            proof {
                lemma_pixel_in_buffer(len, w, x1 as int, y1 as int, x2 as int, y2 as int, x as int, y as int);
                assert(0 <= (y as int) * (buffer_width as int)) by (nonlinear_arith)
                    requires 0 <= y as int, 0 <= buffer_width as int;
                assert(count < total) by (nonlinear_arith)
                    requires
                        count == (x2 as int - x1 as int) * (y as int - y1 as int) + (x as int - x1 as int),
                        total == (x2 as int - x1 as int) * (y2 as int - y1 as int),
                        (x1 as int) <= (x as int) < (x2 as int),
                        (y1 as int) <= (y as int) < (y2 as int);
            }
            let index: usize = y * buffer_width * 4 + x * 4;
            r = r + input[index] as u32;
            g = g + input[index + 1] as u32;
            b = b + input[index + 2] as u32;
            count = count + 1;
            x = x + 1;
        }
        proof {
            assert(sample_count(x1 as int, y1 as int, x2 as int, y as int + 1)
                == sample_count(x1 as int, y1 as int, x2 as int, y as int)
                    + (x2 as int - x1 as int)) by (nonlinear_arith);
        }
        y = y + 1;
    }
    proof {
        assert(x1 == x2 ==> total == 0) by (nonlinear_arith)
            requires total == (x2 as int - x1 as int) * (y2 as int - y1 as int);
        assert(y1 == y2 ==> total == 0) by (nonlinear_arith)
            requires total == (x2 as int - x1 as int) * (y2 as int - y1 as int);
    }
    proof {
        lemma_avg_chan_bounds(input@, w, x1 as int, y1 as int, x2 as int, y2 as int, 0);
        lemma_avg_chan_bounds(input@, w, x1 as int, y1 as int, x2 as int, y2 as int, 1);
        lemma_avg_chan_bounds(input@, w, x1 as int, y1 as int, x2 as int, y2 as int, 2);
    }
    if count == 0 {
        AvgColor { r: 0, g: 0, b: 0 }
    } else {
        AvgColor { r: r / count, g: g / count, b: b / count }
    }
}

/// Draws the one-pixel border of rectangle `(x1, y1)-(x2, y2)` into the
/// output buffer in color `(r, g, b)`: rows `y1` and `y2` over columns
/// `[x1, x2)`, then columns `x1` and `x2` over rows `[y1, y2)`.
#[verifier::loop_isolation(false)]
pub fn draw_border(
    output: &mut Vec<u8>,
    x1: usize,
    y1: usize,
    x2: usize,
    y2: usize,
    buffer_width: usize,
    r: u8,
    g: u8,
    b: u8,
)
    requires
        rect_in_buffer(
            old(output)@.len() as int,
            buffer_width as int,
            x1 as int,
            y1 as int,
            x2 as int,
            y2 as int,
        ),
    ensures
        final(output)@ == with_border(
            old(output)@,
            buffer_width as int,
            x1 as int,
            y1 as int,
            x2 as int,
            y2 as int,
            r,
            g,
            b,
        ),
{
    let ghost w: int = buffer_width as int;
    let ghost len: int = old(output)@.len() as int;
    let ghost orig: Seq<u8> = output@;
    let mut x: usize = x1;
    while x < x2
        invariant
            x1 <= x <= x2,
            output@.len() == orig.len(),
            forall|i: int|
                #![trigger output@[i]]
                0 <= i < output@.len() ==> output@[i] == (
                    if x1 as int <= byte_col(i, w) < x as int
                        && (byte_row(i, w) == y1 as int || byte_row(i, w) == y2 as int) {
                        border_byte(r, g, b, byte_chan(i))
                    } else {
                        orig[i]
                    }
                ),
        decreases x2 - x,
    {
        proof {
            lemma_pixel_in_buffer(len, w, x1 as int, y1 as int, x2 as int, y2 as int, x as int, y1 as int);
            lemma_pixel_in_buffer(len, w, x1 as int, y1 as int, x2 as int, y2 as int, x as int, y2 as int);
            assert(0 <= (y1 as int) * (buffer_width as int)) by (nonlinear_arith)
                requires 0 <= y1 as int, 0 <= buffer_width as int;
            assert(0 <= (y2 as int) * (buffer_width as int)) by (nonlinear_arith)
                requires 0 <= y2 as int, 0 <= buffer_width as int;
        }
        let top: usize = y1 * buffer_width * 4 + x * 4;
        set_pixel(output, top, r, g, b, 255);
        let bottom: usize = y2 * buffer_width * 4 + x * 4;
        set_pixel(output, bottom, r, g, b, 255);
        let ghost xw: int = x as int;
        x = x + 1;
        proof {
            assert forall|i: int| #![trigger output@[i]] 0 <= i < output@.len() implies output@[i] == (
                if x1 as int <= byte_col(i, w) < x as int
                    && (byte_row(i, w) == y1 as int || byte_row(i, w) == y2 as int) {
                    border_byte(r, g, b, byte_chan(i))
                } else {
                    orig[i]
                }
            ) by {
                lemma_byte_encode(i, w);
                if top as int <= i < top as int + 4 {
                    lemma_byte_decode(w, xw, y1 as int, i - top as int);
                }
                if bottom as int <= i < bottom as int + 4 {
                    lemma_byte_decode(w, xw, y2 as int, i - bottom as int);
                }
            };
        }
    }
    let mut y: usize = y1;
    while y < y2
        invariant
            y1 <= y <= y2,
            output@.len() == orig.len(),
            forall|i: int|
                #![trigger output@[i]]
                0 <= i < output@.len() ==> output@[i] == (
                    if (x1 as int <= byte_col(i, w) < x2 as int
                        && (byte_row(i, w) == y1 as int || byte_row(i, w) == y2 as int))
                        || (y1 as int <= byte_row(i, w) < y as int
                            && (byte_col(i, w) == x1 as int || byte_col(i, w) == x2 as int)) {
                        border_byte(r, g, b, byte_chan(i))
                    } else {
                        orig[i]
                    }
                ),
        decreases y2 - y,
    {
        proof {
            lemma_pixel_in_buffer(len, w, x1 as int, y1 as int, x2 as int, y2 as int, x1 as int, y as int);
            lemma_pixel_in_buffer(len, w, x1 as int, y1 as int, x2 as int, y2 as int, x2 as int, y as int);
            assert(0 <= (y as int) * (buffer_width as int)) by (nonlinear_arith)
                requires 0 <= y as int, 0 <= buffer_width as int;
        }
        let left: usize = y * buffer_width * 4 + x1 * 4;
        set_pixel(output, left, r, g, b, 255);
        let right: usize = y * buffer_width * 4 + x2 * 4;
        set_pixel(output, right, r, g, b, 255);
        proof {
            assert forall|i: int| #![trigger output@[i]] 0 <= i < output@.len() implies output@[i] == (
                if (x1 as int <= byte_col(i, w) < x2 as int
                    && (byte_row(i, w) == y1 as int || byte_row(i, w) == y2 as int))
                    || (y1 as int <= byte_row(i, w) < y as int + 1
                        && (byte_col(i, w) == x1 as int || byte_col(i, w) == x2 as int)) {
                    border_byte(r, g, b, byte_chan(i))
                } else {
                    orig[i]
                }
            ) by {
                lemma_byte_encode(i, w);
                if left as int <= i < left as int + 4 {
                    lemma_byte_decode(w, x1 as int, y as int, i - left as int);
                }
                if right as int <= i < right as int + 4 {
                    lemma_byte_decode(w, x2 as int, y as int, i - right as int);
                }
            };
        }
        y = y + 1;
    }
    proof {
        assert(output@ =~= with_border(
            orig,
            w,
            x1 as int,
            y1 as int,
            x2 as int,
            y2 as int,
            r,
            g,
            b,
        ));
    }
}

/// Recursively renders the quadtree of rectangle `(x1, y1)-(x2, y2)` from
/// the input buffer into the output buffer: the region's border is drawn in
/// its average color when the summed average strictly exceeds
/// `color_threshold`, and while both extents exceed `rect_min_size` the four
/// quadrants around the floored midpoints are rendered in turn, top-left,
/// top-right, bottom-left, bottom-right.
pub fn quadtree(
    input: &Vec<u8>,
    output: &mut Vec<u8>,
    x1: usize,
    y1: usize,
    x2: usize,
    y2: usize,
    buffer_width: usize,
    color_threshold: u32,
    rect_min_size: usize,
)
    requires
        input@.len() == old(output)@.len(),
        rect_in_buffer(
            input@.len() as int,
            buffer_width as int,
            x1 as int,
            y1 as int,
            x2 as int,
            y2 as int,
        ),
        1 <= rect_min_size,
    ensures
        final(output)@ == render_spec(
            input@,
            old(output)@,
            buffer_width as int,
            x1 as int,
            y1 as int,
            x2 as int,
            y2 as int,
            color_threshold as int,
            rect_min_size as int,
        ),
        final(output)@.len() == old(output)@.len(),
        agrees_outside_rect(
            old(output)@,
            final(output)@,
            buffer_width as int,
            x1 as int,
            y1 as int,
            x2 as int,
            y2 as int,
        ),
    decreases (x2 - x1) + (y2 - y1),
{
    let ghost w: int = buffer_width as int;
    let ghost len: int = input@.len() as int;
    let ghost o0: Seq<u8> = output@;
    let avg = average_color(input, x1, y1, x2, y2, buffer_width);
    if avg.r + avg.g + avg.b > color_threshold {
        draw_border(output, x1, y1, x2, y2, buffer_width, avg.r as u8, avg.g as u8, avg.b as u8);
    }
    let ghost bordered: Seq<u8> = output@;
    proof {
        let rs: int = avg_chan(input@, w, x1 as int, y1 as int, x2 as int, y2 as int, 0);
        let gs: int = avg_chan(input@, w, x1 as int, y1 as int, x2 as int, y2 as int, 1);
        let bs: int = avg_chan(input@, w, x1 as int, y1 as int, x2 as int, y2 as int, 2);
        assert(bordered == (
            if rs + gs + bs > color_threshold as int {
                with_border(o0, w, x1 as int, y1 as int, x2 as int, y2 as int, rs as u8, gs as u8, bs as u8)
            } else {
                o0
            }
        ));
    }
    if x2 - x1 > rect_min_size && y2 - y1 > rect_min_size {
        proof {
            lemma_split_interval(x1 as int, x2 as int);
            lemma_split_interval(y1 as int, y2 as int);
            vstd::arithmetic::mul::lemma_mul_inequality(
                (y1 as int + y2 as int) / 2 + 1,
                y2 as int + 1,
                w * 4,
            );
            vstd::arithmetic::mul::lemma_mul_inequality(1, y2 as int + 1, w * 4);
            vstd::arithmetic::mul::lemma_mul_inequality(1, w * 4, y2 as int + 1);
        }
        let mid_x: usize = (x1 + x2) / 2;
        let mid_y: usize = (y1 + y2) / 2;
        quadtree(input, output, x1, y1, mid_x, mid_y, buffer_width, color_threshold, rect_min_size);
        quadtree(input, output, mid_x, y1, x2, mid_y, buffer_width, color_threshold, rect_min_size);
        quadtree(input, output, x1, mid_y, mid_x, y2, buffer_width, color_threshold, rect_min_size);
        quadtree(input, output, mid_x, mid_y, x2, y2, buffer_width, color_threshold, rect_min_size);
    }
    proof {
        assert(output@ == render_spec(
            input@,
            o0,
            w,
            x1 as int,
            y1 as int,
            x2 as int,
            y2 as int,
            color_threshold as int,
            rect_min_size as int,
        ));
        lemma_render_spec_frame(
            input@,
            o0,
            w,
            x1 as int,
            y1 as int,
            x2 as int,
            y2 as int,
            color_threshold as int,
            rect_min_size as int,
        );
    }
}

} // verus!
