use bili_add_on::fonts::{
    bundled_name, check_render, choose_primary, load_order, measure, render_sprite, text_size,
    FontSource, GlyphRect, InkBox, BUNDLED,
};
use bili_add_on::raster::sprite_ink_bounds;

fn rect(x: i32, y: i32, w: u32, h: u32, pixel: u32) -> GlyphRect {
    GlyphRect { x, y, w, h, pixel }
}

#[test]
fn test_empty_text_zero_size() {
    assert_eq!(text_size(&vec![]), (0, 0));
}

#[test]
fn fonts_are_loaded_in_order() {
    let order = load_order(2, true);
    assert_eq!(order.len(), 3 + BUNDLED);
    assert_eq!(order[0], FontSource::User(0));
    assert_eq!(order[1], FontSource::User(1));
    assert_eq!(order[2], FontSource::System);
    assert_eq!(order[3], FontSource::Bundled(0));
    assert_eq!(order[13], FontSource::Bundled(10));
    let order = load_order(0, false);
    assert_eq!(order.len(), BUNDLED);
    assert_eq!(order[0], FontSource::Bundled(0));
}

#[test]
fn bundled_fonts_have_names() {
    assert_eq!(bundled_name(0), "SourceHanSansSC-Regular-2.otf");
    assert_eq!(bundled_name(1), "NotoSansSymbols2-Regular.ttf");
    assert_eq!(bundled_name(2), "NotoSansSymbols-Black.ttf");
    assert_eq!(bundled_name(10), "NotoSansSymbols-Thin.ttf");
}

#[test]
fn the_first_font_stays_the_primary_one() {
    let first = choose_primary(None, &vec!["A".to_string(), "B".to_string()], "A-Bold", 700);
    assert_eq!(first.family, "A");
    assert_eq!(first.weight, 700);
    let second = choose_primary(Some(first), &vec!["C".to_string()], "C-Thin", 100);
    assert_eq!(second.family, "A");
    assert_eq!(second.weight, 700);
    let unnamed = choose_primary(None, &vec![], "D-Regular", 400);
    assert_eq!(unnamed.family, "D-Regular");
}

#[test]
fn ink_is_measured() {
    let rects = vec![rect(-3, 5, 2, 2, 1), rect(4, -1, 1, 3, 1)];
    assert_eq!(measure(&rects), Some(InkBox { min_x: -3, min_y: -1, max_x: 5, max_y: 7 }));
    assert_eq!(text_size(&rects), (10, 10));
    assert!(measure(&vec![]).is_none());
}

#[test]
fn sprites_hold_the_ink_with_a_margin() {
    let rects = vec![rect(10, 20, 2, 1, 0x80_11_22_33), rect(11, 20, 1, 1, 0xff_44_55_66)];
    let sprite = render_sprite(&rects);
    assert_eq!(sprite.dimensions(), (4, 3));
    let pixel = |x: usize, y: usize| sprite.data[(y * 4 + x) * 4..][..4].to_vec();
    assert_eq!(pixel(1, 1), vec![0x11, 0x22, 0x33, 0x80]);
    assert_eq!(pixel(2, 1), vec![0x44, 0x55, 0x66, 0xff]);
    for (x, y) in [(0, 0), (1, 0), (0, 1), (3, 1), (1, 2), (3, 2)] {
        assert_eq!(pixel(x, y), vec![0, 0, 0, 0]);
    }
    assert_eq!(sprite_ink_bounds(&sprite), Some((1, 1)));
    assert_eq!(render_sprite(&vec![]).dimensions(), (0, 0));
}

#[test]
fn sprites_that_are_too_large_are_told() {
    assert!(check_render(&vec![rect(0, 0, 5, 5, 0)]));
    assert!(check_render(&vec![]));
    assert!(!check_render(&vec![rect(i32::MAX, 0, 1, 1, 0)]));
    assert!(!check_render(&vec![rect(i32::MIN, 0, 1, 1, 0), rect(i32::MAX - 1, 0, 1, 1, 0)]));
}
