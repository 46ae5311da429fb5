use vector_graphics::color::Color;

#[test]
fn from_rgba_packs_alpha_red_green_blue() {
    let c = Color::from_rgba(0x12, 0x34, 0x56, 0x78);
    assert_eq!(c.as_u32(), 0x7812_3456);
    assert_eq!(c.red(), 0x12);
    assert_eq!(c.green(), 0x34);
    assert_eq!(c.blue(), 0x56);
    assert_eq!(c.alpha(), 0x78);
}

#[test]
fn new_and_as_u32_round_trip() {
    for v in [0u32, 1, 0xff00_00ff, 0xffff_ffff, 0x8000_0000] {
        assert_eq!(Color::new(v).as_u32(), v);
    }
}

#[test]
fn channels_pack_back_into_the_same_color() {
    let c = Color::new(0xa1b2_c3d4);
    assert_eq!(Color::from_rgba(c.red(), c.green(), c.blue(), c.alpha()), c);
}

#[test]
fn with_alpha_replaces_only_alpha() {
    let c = Color::new(0xff7f_7f7f).with_alpha(0x10);
    assert_eq!(c.as_u32(), 0x107f_7f7f);
    assert_eq!(c.with_alpha(0xaa).with_alpha(0x33), Color::new(0x337f_7f7f));
}

#[test]
fn blend_with_opaque_color_replaces_color_channels() {
    let under = Color::new(0x4011_2233);
    let over = Color::new(0xffaa_bbcc);
    assert_eq!(under.blend(over).as_u32(), 0x40aa_bbcc);
}

#[test]
fn blend_with_transparent_color_keeps_pixel() {
    let under = Color::new(0x9911_2233);
    let over = Color::new(0x00ff_ffff);
    assert_eq!(under.blend(over), under);
}

#[test]
fn blend_half_white_over_black() {
    // (0 * 127 + 255 * 128) / 255 = 128 in each channel.
    let black = Color::new(0xff00_0000);
    let white = Color::new(0x80ff_ffff);
    assert_eq!(black.blend(white).as_u32(), 0xff80_8080);
}

#[test]
fn blend_mixes_each_channel_by_alpha() {
    // red: (200 * 155 + 100 * 100) / 255 = 160, green: (0 * 155 + 255 * 100) / 255 = 100,
    // blue: (50 * 155 + 50 * 100) / 255 = 50.
    let under = Color::from_rgba(200, 0, 50, 7);
    let over = Color::from_rgba(100, 255, 50, 100);
    let c = under.blend(over);
    assert_eq!((c.red(), c.green(), c.blue(), c.alpha()), (160, 100, 50, 7));
}
