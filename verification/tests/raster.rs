use vector_graphics::canvas::Canvas;
use vector_graphics::color::Color;
use vector_graphics::raster::{
    composite_scanline, draw_active_edges, generic_line, hairline_alpha, line_in_range, plot,
    polygon_edges, polygon_span_edges, put_pixel, SpanEdge,
};

const RED: u32 = 0xffff_0000;

fn lit(buf: &[u32], width: usize) -> Vec<(usize, usize)> {
    let mut v = vec![];
    for (i, &p) in buf.iter().enumerate() {
        if p == RED {
            v.push((i % width, i / width));
        }
    }
    v
}

#[test]
fn put_pixel_inside_and_outside() {
    let mut buf = vec![0u32; 6];
    {
        let mut canvas = Canvas::from_raw_pixels(&mut buf, 3, 2, 3);
        put_pixel(&mut canvas, 2, 1, Color::new(RED));
        put_pixel(&mut canvas, 3, 0, Color::new(RED));
        put_pixel(&mut canvas, -1, 0, Color::new(RED));
        put_pixel(&mut canvas, 0, 2, Color::new(RED));
    }
    assert_eq!(buf, vec![0, 0, 0, 0, 0, RED]);
}

#[test]
fn bresenham_shallow_line() {
    let mut buf = vec![0u32; 8];
    {
        let mut canvas = Canvas::from_raw_pixels(&mut buf, 4, 2, 4);
        assert!(line_in_range(0, 3, 0, 1));
        generic_line(&mut canvas, 0, 3, 0, 1, false, Color::new(RED));
    }
    assert_eq!(lit(&buf, 4), vec![(0, 0), (1, 0), (2, 1), (3, 1)]);
}

#[test]
fn bresenham_reversed_ends_draw_the_same_pixels() {
    let mut a = vec![0u32; 8];
    let mut b = vec![0u32; 8];
    {
        let mut canvas = Canvas::from_raw_pixels(&mut a, 4, 2, 4);
        generic_line(&mut canvas, 0, 3, 0, 1, false, Color::new(RED));
    }
    {
        let mut canvas = Canvas::from_raw_pixels(&mut b, 4, 2, 4);
        generic_line(&mut canvas, 3, 0, 1, 0, false, Color::new(RED));
    }
    assert_eq!(a, b);
}

#[test]
fn bresenham_transposed_line_swaps_axes() {
    let mut buf = vec![0u32; 8];
    {
        let mut canvas = Canvas::from_raw_pixels(&mut buf, 2, 4, 2);
        generic_line(&mut canvas, 0, 3, 0, 1, true, Color::new(RED));
    }
    assert_eq!(lit(&buf, 2), vec![(0, 0), (0, 1), (1, 2), (1, 3)]);
}

#[test]
fn bresenham_descending_line_and_clipping() {
    let mut buf = vec![0u32; 9];
    {
        let mut canvas = Canvas::from_raw_pixels(&mut buf, 3, 3, 3);
        // From (-1, 3) to (3, -1): only the pixels inside the canvas are drawn.
        generic_line(&mut canvas, -1, 3, 3, -1, false, Color::new(RED));
    }
    assert_eq!(lit(&buf, 3), vec![(2, 0), (1, 1), (0, 2)]);
}

#[test]
fn bresenham_single_point() {
    let mut buf = vec![0u32; 4];
    {
        let mut canvas = Canvas::from_raw_pixels(&mut buf, 2, 2, 2);
        generic_line(&mut canvas, 1, 1, 1, 1, false, Color::new(RED));
    }
    assert_eq!(lit(&buf, 2), vec![(1, 1)]);
}

#[test]
fn line_in_range_rejects_overflowing_lines() {
    assert!(line_in_range(-100, 100, 5, -5));
    assert!(!line_in_range(i32::MIN, i32::MAX, 0, 0));
    assert!(!line_in_range(0, 10, i32::MIN, i32::MAX));
    // A diagonal line steps once more across after its last pixel, which
    // leaves i32 when its far end lies on i32::MAX.
    assert!(!line_in_range(0, 1, i32::MAX - 1, i32::MAX));
    assert!(line_in_range(0, 1, i32::MAX - 3, i32::MAX));
}

#[test]
fn plot_blends_by_coverage() {
    let mut buf = vec![0xff00_0000u32; 4];
    {
        let mut canvas = Canvas::from_raw_pixels(&mut buf, 2, 2, 2);
        plot(&mut canvas, Color::new(0xffff_ffff), 0, 0, 255);
        plot(&mut canvas, Color::new(0xffff_ffff), 1, 0, 0);
        plot(&mut canvas, Color::new(0xffff_ffff), 0, 1, 128);
        plot(&mut canvas, Color::new(0xffff_ffff), 5, 1, 255);
    }
    assert_eq!(buf, vec![0xffff_ffff, 0xff00_0000, 0xff80_8080, 0xff00_0000]);
}

#[test]
fn plot_reads_an_oversized_coverage_as_a_byte() {
    // 300 * 255 / 255 = 300, read as a byte: 44.
    let mut buf = vec![0xff00_0000u32; 1];
    {
        let mut canvas = Canvas::from_raw_pixels(&mut buf, 1, 1, 1);
        plot(&mut canvas, Color::new(0xffff_ffff), 0, 0, 300);
    }
    // (255 * 44) / 255 = 44 in each channel.
    assert_eq!(buf, vec![0xff2c_2c2c]);
}

#[test]
fn composite_scanline_blends_one_row() {
    let mut buf = vec![0xff00_0000u32; 6];
    {
        let mut canvas = Canvas::from_raw_pixels(&mut buf, 2, 2, 3);
        composite_scanline(&mut canvas, 1, &[255, 0], Color::new(0xffff_ffff));
    }
    assert_eq!(buf, vec![0xff00_0000, 0xff00_0000, 0xff00_0000, 0xffff_ffff, 0xff00_0000, 0xff00_0000]);
}

#[test]
fn composite_scanline_scales_color_alpha() {
    // alpha = 255 * 128 / 255 = 128, red = 255 * 128 / 255 = 128.
    let mut buf = vec![0xff00_0000u32; 1];
    {
        let mut canvas = Canvas::from_raw_pixels(&mut buf, 1, 1, 1);
        composite_scanline(&mut canvas, 0, &[255], Color::new(0x80ff_0000));
    }
    assert_eq!(buf, vec![0xff80_0000]);
}

fn edge(x: i32, lead: u8, trail: u8, direction: i32) -> SpanEdge {
    SpanEdge { x, lead, trail, direction }
}

#[test]
fn one_span_covers_its_columns() {
    let mut scan = vec![0u8; 8];
    draw_active_edges(&[edge(2, 10, 1, 1), edge(5, 2, 4, -1)], &mut scan, 8, 20);
    assert_eq!(scan, vec![0, 0, 10, 20, 20, 4, 0, 0]);
}

#[test]
fn nested_edges_keep_one_span_open() {
    let mut scan = vec![0u8; 8];
    let edges = [edge(1, 5, 0, 1), edge(2, 0, 0, 1), edge(4, 0, 0, -1), edge(6, 0, 3, -1)];
    draw_active_edges(&edges, &mut scan, 8, 10);
    assert_eq!(scan, vec![0, 5, 10, 10, 10, 10, 3, 0]);
}

#[test]
fn spans_are_clipped_to_the_width_and_saturate() {
    let mut scan = vec![250u8, 0, 0, 0];
    draw_active_edges(&[edge(-3, 9, 0, -1), edge(9, 0, 9, 1)], &mut scan, 4, 10);
    assert_eq!(scan, vec![255, 10, 10, 10]);
}

#[test]
fn polygon_edges_close_each_run() {
    let edges = polygon_edges(&[3, 4]);
    assert_eq!(edges, vec![(0, 1), (1, 2), (2, 0), (3, 4), (4, 5), (5, 6), (6, 3)]);
}

#[test]
fn hairline_alpha_values() {
    assert_eq!(hairline_alpha(256), 255);
    assert_eq!(hairline_alpha(128), 127);
    assert_eq!(hairline_alpha(0), 0);
    assert_eq!(hairline_alpha(-1), 255);
}

#[test]
fn polygon_span_edges_close_each_run() {
    let edges = polygon_span_edges(&[(0, 2), (3, 3), (5, 4)]);
    assert_eq!(edges, vec![(0, 1), (1, 2), (2, 0), (3, 3), (4, 5)]);
    assert!(polygon_span_edges(&[]).is_empty());
}
