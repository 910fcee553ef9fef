use firework::darken::darken_color;
use firework::color::{random_rgb_color, random_y_index};
use palette::{Darken, LinSrgb};

#[test]
fn darken_color_ok() {
    assert_eq!(darken_color(0xbc24b1, 10), 0xa30a98);
}

#[test]
fn darken_zero_ratio_is_identity() {
    assert_eq!(darken_color(0x000000, 0), 0x000000);
    assert_eq!(darken_color(0x123456, 0), 0x123456);
    assert_eq!(darken_color(0xffffff, 0), 0xffffff);
    assert_eq!(darken_color(0xbc24b1, 0), 0xbc24b1);
}

#[test]
fn darken_is_per_channel_non_increasing() {
    for &color in &[0x000000u32, 0x0000ff, 0x00ff00, 0xff0000, 0x123456, 0xbc24b1, 0xffffff] {
        for &ratio in &[1u8, 2, 10, 50, 100] {
            let out = darken_color(color, ratio);
            assert!((out >> 16) & 0xff <= (color >> 16) & 0xff);
            assert!((out >> 8) & 0xff <= (color >> 8) & 0xff);
            assert!(out & 0xff <= color & 0xff);
        }
    }
}

#[test]
fn darken_full_ratio_reaches_black() {
    assert_eq!(darken_color(0xffffff, 100), 0x000000);
    assert_eq!(darken_color(0x123456, 100), 0x000000);
}

#[test]
fn darken_matches_float_pipeline() {
    // The same computation through 64-bit floating point, the convention
    // that `darken_color_ok` pins down numerically: scale by the nearest
    // double to 1/255, subtract the ratio, scale by 255 and round to the
    // nearest integer with ties to even.
    for r in [0u8, 1, 2, 10, 37, 55, 99, 100] {
        for x in 0u32..=255 {
            let packed = (x << 16) | (x << 8) | x;
            let got = darken_color(packed, r);
            let expected: u32 = if r == 0 {
                packed
            } else {
                let c = LinSrgb::new(x as u8, x as u8, x as u8);
                let c = c.into_format::<f64>();
                let c = c.darken_fixed(r as f64 / 100.0);
                let c = c.into_format::<u8>();
                ((c.red as u32) << 16) | ((c.green as u32) << 8) | c.blue as u32
            };
            assert_eq!(got, expected, "channel {} ratio {}", x, r);
        }
    }
}

#[test]
fn darken_strictly_decreases_nonzero_colors() {
    let mut c: u32 = 0xbc24b1;
    let mut steps: u32 = 0;
    while c > 0 {
        let next = darken_color(c, 1);
        assert!(next < c);
        c = next;
        steps += 1;
        assert!(steps <= 0xffffff);
    }
    assert_eq!(c, 0);
}

#[test]
fn random_color_and_row_stay_in_range() {
    for _ in 0..100 {
        assert!(random_rgb_color() < 0xffffff);
        assert!(random_y_index() < 600);
    }
}
