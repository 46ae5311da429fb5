use vector_graphics::canvas::Canvas;
use vector_graphics::color::Color;

#[test]
fn from_raw_pixels_keeps_dimensions() {
    let mut buf = vec![0u32; 12];
    let canvas = Canvas::from_raw_pixels(&mut buf, 3, 2, 5);
    assert_eq!(canvas.width(), 3);
    assert_eq!(canvas.height(), 2);
    assert_eq!(canvas.stride, 5);
    assert_eq!(canvas.pixels.len(), 12);
}

#[test]
fn clear_fills_rows_and_leaves_the_rest() {
    let mut buf = vec![7u32; 12];
    {
        let mut canvas = Canvas::from_raw_pixels(&mut buf, 3, 2, 5);
        canvas.clear(Color::new(0xff00_ff00));
    }
    let mut expected = vec![0xff00_ff00u32; 10];
    expected.extend([7, 7]);
    assert_eq!(buf, expected);
}

#[test]
fn at_reads_what_at_mut_wrote() {
    let mut buf = vec![0u32; 8];
    let mut canvas = Canvas::from_raw_pixels(&mut buf, 4, 2, 4);
    *canvas.at_mut(3, 1) = 0x1234_5678;
    assert_eq!(canvas.at(3, 1), Color::new(0x1234_5678));
    assert_eq!(canvas.at(2, 1), Color::new(0));
    assert_eq!(canvas.pixels[7], 0x1234_5678);
}

#[test]
fn at_uses_the_stride() {
    let mut buf: Vec<u32> = (0..10).collect();
    let canvas = Canvas::from_raw_pixels(&mut buf, 2, 2, 5);
    assert_eq!(canvas.at(1, 1).as_u32(), 6);
    assert_eq!(canvas.at(0, 0).as_u32(), 0);
}

#[test]
fn addresses_all_checks_the_last_pixel() {
    let mut buf = vec![0u32; 10];
    let c = Canvas::from_raw_pixels(&mut buf, 3, 3, 4);
    // The last pixel sits at 2 * 4 + 2 = 10, one past the buffer.
    assert!(!c.addresses_all());
    let mut buf = vec![0u32; 11];
    let c = Canvas::from_raw_pixels(&mut buf, 3, 3, 4);
    assert!(c.addresses_all());
    let mut none: Vec<u32> = vec![];
    let c = Canvas::from_raw_pixels(&mut none, 0, 5, 7);
    assert!(c.addresses_all());
}
