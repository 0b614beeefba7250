use bili_add_on::double::Double;
use bili_add_on::raster::{
    blit, blit_cached_text, count_256ths, decode_rgb, sprite_ink_bounds, Rgb, RgbImage, Rgba,
    RgbaImage,
};

fn double(x: f64) -> Double {
    Double::from_bits(x.to_bits())
}

#[test]
fn test_decode_rgb_white() {
    assert_eq!(decode_rgb(0xFFFFFF), Rgb([255, 255, 255]));
}

#[test]
fn test_decode_rgb_black() {
    assert_eq!(decode_rgb(0x000000), Rgb([0, 0, 0]));
}

#[test]
fn test_decode_rgb_red() {
    assert_eq!(decode_rgb(0xFF0000), Rgb([255, 0, 0]));
}

#[test]
fn test_decode_rgb_bilibili_white() {
    assert_eq!(decode_rgb(16777215), Rgb([255, 255, 255]));
}

#[test]
fn test_decode_rgb_green() {
    assert_eq!(decode_rgb(0x00FF00), Rgb([0, 255, 0]));
}

#[test]
fn test_decode_rgb_blue() {
    assert_eq!(decode_rgb(0x0000FF), Rgb([0, 0, 255]));
}

#[test]
fn test_sprite_ink_bounds_basic() {
    let mut sprite = RgbaImage::new(4, 8);
    sprite.put_pixel(0, 2, Rgba([255, 0, 0, 255]));
    sprite.put_pixel(3, 5, Rgba([0, 255, 0, 128]));
    let (top, bottom) = sprite_ink_bounds(&sprite).unwrap();
    assert_eq!((top, bottom), (2, 5));
}

#[test]
fn test_sprite_ink_bounds_empty() {
    let sprite = RgbaImage::new(4, 8);
    assert_eq!(sprite_ink_bounds(&sprite), None);
    assert_eq!(sprite_ink_bounds(&RgbaImage::new(0, 0)), None);
}

#[test]
fn test_blit_cached_text_full_opacity() {
    let mut frame = RgbImage::new(2, 2);
    frame.fill(0);
    let mut sprite = RgbaImage::new(2, 2);
    sprite.put_pixel(0, 0, Rgba([255, 0, 0, 255]));
    sprite.put_pixel(1, 1, Rgba([0, 255, 0, 255]));

    blit_cached_text(&mut frame, &sprite, 0, 0, double(1.0));

    let p = frame.get_pixel(0, 0);
    assert!(p.0[0] >= 254);
}

#[test]
fn test_blit_cached_text_zero_opacity() {
    let mut frame = RgbImage::new(2, 2);
    frame.put_pixel(0, 0, Rgb([100, 100, 100]));
    let mut sprite = RgbaImage::new(2, 2);
    sprite.put_pixel(0, 0, Rgba([255, 255, 255, 255]));

    blit_cached_text(&mut frame, &sprite, 0, 0, double(0.0));
    assert_eq!(frame.get_pixel(0, 0), Rgb([100, 100, 100]));
}

#[test]
fn the_high_byte_of_a_colour_is_ignored() {
    assert_eq!(decode_rgb(0xAB01_0203), Rgb([1, 2, 3]));
}

#[test]
fn opacities_become_256ths() {
    for x in [0.0, 0.001, 0.25, 0.5, 0.93, 0.999, 1.0] {
        assert_eq!(count_256ths(double(x)), (x * 256.0).round() as u32);
    }
}

#[test]
fn half_opacity_mixes_both_colours() {
    let mut frame = RgbImage::new(1, 1);
    frame.put_pixel(0, 0, Rgb([100, 0, 200]));
    let mut sprite = RgbaImage::new(1, 1);
    sprite.put_pixel(0, 0, Rgba([200, 100, 0, 255]));
    blit(&mut frame, &sprite, 0, 0, 128);
    // The ink covers 127 of 256 parts.
    assert_eq!(frame.get_pixel(0, 0), Rgb([149, 49, 100]));
}

#[test]
fn sprites_beyond_the_edge_are_cut() {
    let mut frame = RgbImage::new(3, 3);
    let mut sprite = RgbaImage::new(2, 2);
    for (x, y) in [(0, 0), (1, 0), (0, 1), (1, 1)] {
        sprite.put_pixel(x, y, Rgba([255, 255, 255, 255]));
    }
    blit(&mut frame, &sprite, -1, 2, 256);
    for x in 0..3 {
        for y in 0..3 {
            let lit = frame.get_pixel(x, y).0[0] > 0;
            assert_eq!(lit, x == 0 && y == 2);
        }
    }
    blit(&mut frame, &sprite, -2, 0, 256);
    blit(&mut frame, &sprite, 3, 3, 256);
    assert_eq!(frame.get_pixel(0, 0), Rgb([0, 0, 0]));
}

#[test]
fn sprites_that_end_beyond_the_last_column_do_not_show() {
    let mut frame = RgbImage::new(2, 2);
    let mut sprite = RgbaImage::new(1, 1);
    sprite.put_pixel(0, 0, Rgba([255, 255, 255, 255]));
    for (x, y) in [(i32::MAX, 0), (0, i32::MAX), (i32::MIN, i32::MIN), (i32::MAX - 1, 0)] {
        blit(&mut frame, &sprite, x, y, 256);
        blit_cached_text(&mut frame, &sprite, x, y, double(1.0));
    }
    assert!(frame.data.iter().all(|byte| *byte == 0));
}

#[test]
fn transparent_sprites_change_nothing() {
    let mut frame = RgbImage::new(2, 1);
    frame.put_pixel(1, 0, Rgb([1, 2, 3]));
    let mut sprite = RgbaImage::new(2, 1);
    sprite.put_pixel(1, 0, Rgba([255, 255, 255, 0]));
    blit(&mut frame, &sprite, 0, 0, 256);
    assert_eq!(frame.get_pixel(1, 0), Rgb([1, 2, 3]));
    assert_eq!(frame.dimensions(), (2, 1));
    assert_eq!(sprite.dimensions(), (2, 1));
}
