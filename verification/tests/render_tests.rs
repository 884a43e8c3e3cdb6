use quadtree::render::{average_color, draw_border, quadtree, set_pixel, AvgColor};

fn uniform_image(w: usize, h: usize, r: u8, g: u8, b: u8) -> Vec<u8> {
    let mut buf: Vec<u8> = Vec::new();
    for _ in 0..w * h {
        buf.push(r);
        buf.push(g);
        buf.push(b);
        buf.push(255);
    }
    buf
}

fn split_image() -> Vec<u8> {
    // 4x4: columns 0-1 pure red, columns 2-3 pure blue.
    let mut buf: Vec<u8> = Vec::new();
    for _y in 0..4 {
        for x in 0..4 {
            if x < 2 {
                buf.extend_from_slice(&[255, 0, 0, 255]);
            } else {
                buf.extend_from_slice(&[0, 0, 255, 255]);
            }
        }
    }
    buf
}

#[test]
fn set_pixel_writes_blue_green_red_alpha() {
    let mut out: Vec<u8> = vec![0; 8];
    set_pixel(&mut out, 4, 1, 2, 3, 4);
    assert_eq!(out, vec![0, 0, 0, 0, 3, 2, 1, 4]);
}

#[test]
fn average_uniform_region_is_exact() {
    let input = uniform_image(4, 4, 10, 20, 30);
    let avg = average_color(&input, 0, 0, 3, 3, 4);
    assert_eq!(avg, AvgColor { r: 10, g: 20, b: 30 });
}

#[test]
fn average_zero_width_is_zero() {
    let input = uniform_image(4, 4, 200, 200, 200);
    let avg = average_color(&input, 2, 0, 2, 3, 4);
    assert_eq!(avg, AvgColor { r: 0, g: 0, b: 0 });
}

#[test]
fn average_zero_height_is_zero() {
    let input = uniform_image(4, 4, 200, 200, 200);
    let avg = average_color(&input, 0, 1, 3, 1, 4);
    assert_eq!(avg, AvgColor { r: 0, g: 0, b: 0 });
}

#[test]
fn average_truncates_toward_zero() {
    // Two sampled pixels with red 1 and 2: the mean 3/2 truncates to 1.
    let mut input = uniform_image(4, 4, 0, 0, 0);
    input[0] = 1;
    input[4] = 2;
    let avg = average_color(&input, 0, 0, 2, 1, 4);
    assert_eq!(avg, AvgColor { r: 1, g: 0, b: 0 });
}

#[test]
fn average_excludes_last_row_and_column() {
    // Only the excluded row y2 and column x2 differ from zero, so the
    // half-open sample sees nothing of them.
    let mut input = uniform_image(4, 4, 0, 0, 0);
    for x in 0..4 {
        input[2 * 16 + x * 4] = 99;
    }
    for y in 0..4 {
        input[y * 16 + 2 * 4] = 99;
    }
    let avg = average_color(&input, 0, 0, 2, 2, 4);
    assert_eq!(avg, AvgColor { r: 0, g: 0, b: 0 });
}

#[test]
fn draw_border_shared_column_last_writer_wins() {
    // Left rectangle (0,0)-(2,3) and right rectangle (2,0)-(3,3) share
    // column 2; the right border is drawn last and owns the column.
    let mut out: Vec<u8> = vec![0; 64];
    draw_border(&mut out, 0, 0, 2, 3, 4, 10, 11, 12);
    draw_border(&mut out, 2, 0, 3, 3, 4, 200, 50, 25);
    for y in 0..3 {
        let i = y * 16 + 2 * 4;
        assert_eq!(&out[i..i + 4], &[25, 50, 200, 255]);
    }
    // A pixel of the left border away from the shared column keeps the
    // left color.
    assert_eq!(&out[0..4], &[12, 11, 10, 255]);
}

#[test]
fn draw_border_leaves_interior_untouched() {
    let mut out: Vec<u8> = vec![7; 64];
    draw_border(&mut out, 0, 0, 3, 3, 4, 1, 2, 3);
    // Interior pixels (1,1), (2,1), (1,2), (2,2) keep their old bytes.
    for (x, y) in [(1usize, 1usize), (2, 1), (1, 2), (2, 2)] {
        let i = y * 16 + x * 4;
        assert_eq!(&out[i..i + 4], &[7, 7, 7, 7]);
    }
    // The corner (x2, y2) is on neither half-open edge range.
    assert_eq!(&out[3 * 16 + 3 * 4..3 * 16 + 3 * 4 + 4], &[7, 7, 7, 7]);
}

#[test]
fn quadtree_black_image_stays_zero() {
    let input = uniform_image(4, 4, 0, 0, 0);
    let mut output: Vec<u8> = vec![0; input.len()];
    quadtree(&input, &mut output, 0, 0, 3, 3, 4, 280, 1);
    assert_eq!(output, vec![0; 64]);
}

#[test]
fn quadtree_white_image_borders_everything_but_far_corner() {
    let input = uniform_image(4, 4, 255, 255, 255);
    let mut output: Vec<u8> = vec![0; input.len()];
    quadtree(&input, &mut output, 0, 0, 3, 3, 4, 280, 1);
    let mut expected: Vec<u8> = vec![255; 64];
    // Pixel (3, 3) lies on no drawn edge: row 3 and column 3 are boundary
    // coordinates, and their half-open ranges exclude their far ends.
    for k in 60..64 {
        expected[k] = 0;
    }
    assert_eq!(output, expected);
}

#[test]
fn quadtree_sum_equal_to_threshold_draws_nothing() {
    // Averages (100, 100, 80) sum to exactly 280: the comparison is
    // strict, so nothing may be drawn.
    let input = uniform_image(4, 4, 100, 100, 80);
    let mut output: Vec<u8> = vec![0; input.len()];
    quadtree(&input, &mut output, 0, 0, 3, 3, 4, 280, 1);
    assert_eq!(output, vec![0; 64]);
}

#[test]
fn quadtree_sum_just_above_threshold_draws() {
    let input = uniform_image(4, 4, 100, 100, 81);
    let mut output: Vec<u8> = vec![0; input.len()];
    quadtree(&input, &mut output, 0, 0, 3, 3, 4, 280, 1);
    let mut expected: Vec<u8> = Vec::new();
    for _ in 0..15 {
        expected.extend_from_slice(&[81, 100, 100, 255]);
    }
    expected.extend_from_slice(&[0, 0, 0, 0]);
    assert_eq!(output, expected);
}

#[test]
fn quadtree_split_image_exact_bytes() {
    // A half-red, half-blue image at a low threshold: parents draw first
    // and children overwrite, so the exact byte image pins the recursion
    // order and the blue-green-red-alpha write order.
    let input = split_image();
    let mut output: Vec<u8> = vec![0; input.len()];
    quadtree(&input, &mut output, 0, 0, 3, 3, 4, 100, 1);
    let expected: Vec<u8> = vec![
        0, 0, 255, 255, 127, 0, 127, 255, 127, 0, 127, 255, 127, 0, 127, 255,
        0, 0, 255, 255, 0, 0, 255, 255, 255, 0, 0, 255, 255, 0, 0, 255,
        0, 0, 255, 255, 0, 0, 255, 255, 255, 0, 0, 255, 255, 0, 0, 255,
        0, 0, 255, 255, 0, 0, 255, 255, 255, 0, 0, 255, 0, 0, 0, 0,
    ];
    assert_eq!(output, expected);
}

#[test]
fn quadtree_preserves_length_and_outside_pixels() {
    // Rendering the top-left rectangle (0,0)-(1,1) of a bright image
    // touches nothing outside that rectangle.
    let input = uniform_image(4, 4, 255, 255, 255);
    let mut output: Vec<u8> = vec![0; input.len()];
    quadtree(&input, &mut output, 0, 0, 1, 1, 4, 280, 1);
    assert_eq!(output.len(), input.len());
    for y in 0..4 {
        for x in 0..4 {
            if x > 1 || y > 1 {
                let i = y * 16 + x * 4;
                assert_eq!(&output[i..i + 4], &[0, 0, 0, 0]);
            }
        }
    }
}

#[test]
fn quadtree_single_pixel_image() {
    let input = uniform_image(1, 1, 255, 255, 255);
    let mut output: Vec<u8> = vec![0; 4];
    quadtree(&input, &mut output, 0, 0, 0, 0, 1, 0, 1);
    // The only rectangle is degenerate: it samples nothing, averages to
    // zero, and zero does not exceed the threshold zero.
    assert_eq!(output, vec![0, 0, 0, 0]);
}
