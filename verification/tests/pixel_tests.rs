use textraster::pixel::{blend_channel, blend_pixel, Pix, COV_ONE};

#[test]
fn zero_coverage_keeps_the_current_channel() {
    assert_eq!(blend_channel(0, 255, 0), 0);
    assert_eq!(blend_channel(99, 1, 0), 99);
    assert_eq!(blend_channel(255, 0, 0), 255);
}

#[test]
fn full_coverage_yields_the_draw_color_exactly() {
    assert_eq!(blend_channel(0, 255, COV_ONE), 255);
    assert_eq!(blend_channel(255, 0, COV_ONE), 0);
    assert_eq!(blend_channel(42, 137, COV_ONE), 137);
    let white = Pix { r: 255, g: 255, b: 255, a: 255 };
    let color = Pix { r: 10, g: 20, b: 30, a: 40 };
    assert_eq!(blend_pixel(white, color, COV_ONE), color);
}

#[test]
fn half_coverage_interpolates_linearly() {
    // (100 * 128 + 200 * 128) / 256 = 150
    assert_eq!(blend_channel(100, 200, 128), 150);
    // (255 * 128 + 0 * 128) / 256 = 127.5, floored
    assert_eq!(blend_channel(255, 0, 128), 127);
    // (0 * 128 + 255 * 128) / 256 = 127.5, floored
    assert_eq!(blend_channel(0, 255, 128), 127);
}

#[test]
fn quarter_coverage_weights_the_color_by_a_quarter() {
    // (200 * 192 + 40 * 64) / 256 = (38400 + 2560) / 256 = 160
    assert_eq!(blend_channel(200, 40, 64), 160);
}

#[test]
fn blend_pixel_works_per_channel() {
    let cur = Pix { r: 0, g: 100, b: 255, a: 255 };
    let col = Pix { r: 255, g: 200, b: 0, a: 255 };
    let out = blend_pixel(cur, col, 128);
    assert_eq!(out, Pix { r: 127, g: 150, b: 127, a: 255 });
}
