use bili_add_on::danmaku::{Danmaku, DanmakuMode};
use bili_add_on::duration::Duration;
use bili_add_on::growable::GrowableVec;
use bili_add_on::layout::{
    compute_n_rails, del_dead, draw_fixed_danmakus, draw_scroll_danmakus, find_free_track,
    mark_track_occupied, scroll, scroll_slots, Direction, DrawParams, NormalComponent, Slot,
};
use bili_add_on::rails::BitSet;
use bili_add_on::raster::{Rgb, Rgba, RgbImage, RgbaImage};

#[test]
fn test_find_free_track_basic() {
    let mut occ = BitSet::new();
    mark_track_occupied(&mut occ, 1, 2);
    assert_eq!(find_free_track(&occ, 1, 10, false), Some(0));
    assert_eq!(find_free_track(&occ, 2, 10, false), Some(3));
    assert_eq!(find_free_track(&occ, 3, 10, false), Some(3));
}

#[test]
fn test_find_free_track_from_bottom() {
    let mut occ = BitSet::new();
    mark_track_occupied(&mut occ, 7, 1);
    assert_eq!(find_free_track(&occ, 1, 10, true), Some(9));
    assert_eq!(find_free_track(&occ, 3, 10, true), Some(4));
}

#[test]
fn test_find_free_track_none() {
    let mut occ = BitSet::new();
    for t in 0..10 {
        mark_track_occupied(&mut occ, t, 1);
    }
    assert_eq!(find_free_track(&occ, 1, 10, false), None);
    assert_eq!(find_free_track(&occ, 1, 10, true), None);
}

#[test]
fn test_compute_n_rails_bilibili_table() {
    let n = |s: usize| compute_n_rails(32, 36, s);
    assert_eq!(n(18), 1);
    assert_eq!(n(25), 1);
    assert_eq!(n(36), 2);
    assert_eq!(n(45), 2);
    assert_eq!(n(64), 3);
}

#[test]
fn test_compute_n_rails_min_one() {
    assert_eq!(compute_n_rails(32, 36, 1), 1);
}

fn component(x: i64, y: Option<i64>) -> NormalComponent {
    NormalComponent {
        x,
        y,
        width: 10,
        n_rails: 1,
        travel: Duration::zero(),
        dead_line: Duration::zero(),
        cached_text: None,
    }
}

#[test]
fn test_scroll_to_left() {
    let mut comps = vec![component(100, Some(0))];
    scroll(&mut comps, Direction::ToLeft, 3);
    assert_eq!(comps[0].x, 97);
}

#[test]
fn test_scroll_to_right() {
    let mut comps = vec![component(100, Some(0))];
    scroll(&mut comps, Direction::ToRight, 5);
    assert_eq!(comps[0].x, 105);
}

#[test]
fn test_scroll_only_active() {
    let mut slots: GrowableVec<Slot> = GrowableVec::new(None);
    let (dan, _) = danmaku_comp(Duration::zero(), Duration::zero(), DanmakuMode::Scroll);
    slots[0] = Some((dan.clone(), component(100, Some(10))));
    slots[1] = Some((dan, component(200, None)));
    scroll_slots(&mut slots, Direction::ToLeft, 2);
    assert_eq!(slots[0].as_ref().unwrap().1.x, 98);
    assert_eq!(slots[1].as_ref().unwrap().1.x, 200);
}

fn expiring() -> Slot {
    let dan = Danmaku {
        time: Duration::from_secs(0),
        mode: DanmakuMode::Scroll,
        font_size: 25,
        color: Rgb([255, 0, 0]),
        text: "test".into(),
    };
    let comp = NormalComponent {
        x: 0,
        y: None,
        width: 10,
        n_rails: 1,
        travel: Duration::zero(),
        dead_line: Duration::from_secs(10),
        cached_text: None,
    };
    Some((dan, comp))
}

#[test]
fn test_del_dead_removes_expired() {
    let mut slots = GrowableVec::new(None);
    slots[0] = expiring();
    del_dead(&mut slots, Duration::from_secs(11));
    assert!(slots[0].is_none());
}

#[test]
fn test_del_dead_keeps_active() {
    let mut slots = GrowableVec::new(None);
    slots[0] = expiring();
    del_dead(&mut slots, Duration::from_secs(9));
    assert!(slots[0].is_some());
}

#[test]
fn test_del_dead_exact_deadline() {
    let mut slots = GrowableVec::new(None);
    slots[0] = expiring();
    del_dead(&mut slots, Duration::from_secs(10));
    assert!(slots[0].is_none());
}

fn danmaku_comp(
    dead_line: Duration,
    travel: Duration,
    mode: DanmakuMode,
) -> (Danmaku, NormalComponent) {
    let dan = Danmaku {
        time: Duration::from_secs(0),
        mode,
        font_size: 25,
        color: Rgb([255, 255, 255]),
        text: "测试".into(),
    };
    let comp = NormalComponent {
        x: 100,
        y: None,
        width: 10,
        n_rails: 1,
        travel,
        dead_line,
        cached_text: Some(RgbaImage::new(10, 10)),
    };
    (dan, comp)
}

fn draw_params(now: Duration) -> DrawParams {
    DrawParams { base_pitch: 10, rail_cnt: 4, area_top: 0, o256: 256, min_space: 0, now }
}

#[test]
fn test_scroll_placed_when_remaining_equals_travel() {
    let mut image = RgbImage::new(20, 40);
    let mut slots = GrowableVec::new(None);
    slots[0] = Some(danmaku_comp(
        Duration::from_secs(10),
        Duration::from_secs(5),
        DanmakuMode::Scroll,
    ));
    let params = draw_params(Duration::from_secs(5));
    draw_scroll_danmakus(&mut image, &params, &mut slots, Direction::ToLeft);
    let y = slots[0].as_ref().unwrap().1.y;
    assert_eq!(y, Some(0));
}

#[test]
fn test_scroll_dropped_when_remaining_less_than_travel() {
    let mut image = RgbImage::new(20, 40);
    let mut slots = GrowableVec::new(None);
    slots[0] = Some(danmaku_comp(
        Duration::from_secs(8),
        Duration::from_secs(5),
        DanmakuMode::Scroll,
    ));
    let params = draw_params(Duration::from_secs(5));
    draw_scroll_danmakus(&mut image, &params, &mut slots, Direction::ToLeft);
    assert!(slots[0].is_none());
}

#[test]
fn test_scroll_kept_when_placed_immediately() {
    let mut image = RgbImage::new(20, 40);
    let mut slots = GrowableVec::new(None);
    let (dan, comp) = danmaku_comp(
        Duration::from_secs(10),
        Duration::from_secs(5),
        DanmakuMode::Scroll,
    );
    slots[0] = Some((dan, comp));
    let params = draw_params(Duration::from_secs(5));
    draw_scroll_danmakus(&mut image, &params, &mut slots, Direction::ToLeft);
    assert!(slots[0].is_some());
    assert_eq!(slots[0].as_ref().unwrap().1.y, Some(0));
}

#[test]
fn test_fixed_dropped_when_remaining_less_than_travel() {
    let mut image = RgbImage::new(20, 40);
    let mut slots = GrowableVec::new(None);
    slots[0] = Some(danmaku_comp(
        Duration::from_secs(8),
        Duration::from_secs(5),
        DanmakuMode::Top,
    ));
    let params = draw_params(Duration::from_secs(5));
    draw_fixed_danmakus(&mut image, &params, &mut slots, false);
    assert!(slots[0].is_none());
}

#[test]
fn test_fixed_kept_when_remaining_equals_travel() {
    let mut image = RgbImage::new(20, 40);
    let mut slots = GrowableVec::new(None);
    slots[0] = Some(danmaku_comp(
        Duration::from_secs(10),
        Duration::from_secs(5),
        DanmakuMode::Top,
    ));
    let params = draw_params(Duration::from_secs(5));
    draw_fixed_danmakus(&mut image, &params, &mut slots, false);
    assert_eq!(slots[0].as_ref().unwrap().1.y, Some(0));
}

fn waiting(mode: DanmakuMode) -> Slot {
    Some(danmaku_comp(Duration::from_secs(10), Duration::from_secs(5), mode))
}

#[test]
fn fixed_danmaku_take_rails_of_their_own() {
    let mut image = RgbImage::new(20, 40);
    let mut top: GrowableVec<Slot> = GrowableVec::new(None);
    let mut bottom: GrowableVec<Slot> = GrowableVec::new(None);
    for i in 0..5 {
        top[i] = waiting(DanmakuMode::Top);
        bottom[i] = waiting(DanmakuMode::Bottom);
    }
    let params = draw_params(Duration::from_secs(5));
    draw_fixed_danmakus(&mut image, &params, &mut top, false);
    draw_fixed_danmakus(&mut image, &params, &mut bottom, true);
    let rows = |slots: &GrowableVec<Slot>| -> Vec<Option<i64>> {
        slots.iter().map(|s| s.as_ref().unwrap().1.y).collect()
    };
    assert_eq!(rows(&top), vec![Some(0), Some(10), Some(20), Some(30), None]);
    assert_eq!(rows(&bottom), vec![Some(30), Some(20), Some(10), Some(0), None]);
}

#[test]
fn a_scrolling_danmaku_waits_until_the_rail_has_room() {
    let mut image = RgbImage::new(20, 10);
    let params = DrawParams {
        base_pitch: 10,
        rail_cnt: 1,
        area_top: 0,
        o256: 256,
        min_space: 5,
        now: Duration::from_secs(5),
    };
    let mut slots: GrowableVec<Slot> = GrowableVec::new(None);
    slots[0] = waiting(DanmakuMode::Scroll);
    slots[1] = waiting(DanmakuMode::Scroll);
    draw_scroll_danmakus(&mut image, &params, &mut slots, Direction::ToLeft);
    assert_eq!(slots[0].as_ref().unwrap().1.y, Some(0));
    assert_eq!(slots[1].as_ref().unwrap().1.y, None);
    // The first is ten columns wide, and five more have to stay free behind it.
    scroll_slots(&mut slots, Direction::ToLeft, 14);
    draw_scroll_danmakus(&mut image, &params, &mut slots, Direction::ToLeft);
    assert_eq!(slots[1].as_ref().unwrap().1.y, None);
    scroll_slots(&mut slots, Direction::ToLeft, 1);
    draw_scroll_danmakus(&mut image, &params, &mut slots, Direction::ToLeft);
    assert_eq!(slots[1].as_ref().unwrap().1.y, Some(0));
}

#[test]
fn placed_danmaku_are_drawn_where_they_stand() {
    let mut image = RgbImage::new(20, 40);
    let mut slots: GrowableVec<Slot> = GrowableVec::new(None);
    slots[0] = waiting(DanmakuMode::Top);
    if let Some((_, comp)) = &mut slots[0] {
        comp.x = 3;
        let mut sprite = RgbaImage::new(2, 2);
        sprite.put_pixel(1, 1, Rgba([200, 100, 50, 255]));
        comp.cached_text = Some(sprite);
    }
    let params = DrawParams { area_top: 7, ..draw_params(Duration::from_secs(5)) };
    draw_fixed_danmakus(&mut image, &params, &mut slots, false);
    assert_eq!(image.get_pixel(4, 8), Rgb([199, 99, 49]));
    assert_eq!(image.get_pixel(3, 8), Rgb([0, 0, 0]));
}

#[test]
fn higher_danmaku_need_rails_side_by_side() {
    let mut occ = BitSet::new();
    mark_track_occupied(&mut occ, 1, 1);
    mark_track_occupied(&mut occ, 3, 1);
    assert_eq!(find_free_track(&occ, 2, 6, false), Some(4));
    assert_eq!(find_free_track(&occ, 2, 6, true), Some(4));
    assert_eq!(find_free_track(&occ, 3, 6, false), None);
    assert_eq!(find_free_track(&occ, 1, 6, true), Some(5));
}

#[test]
fn marking_rails_takes_these_alone() {
    let mut occ = BitSet::new();
    mark_track_occupied(&mut occ, 2, 3);
    assert_eq!(find_free_track(&occ, 2, 10, false), Some(0));
    assert_eq!(find_free_track(&occ, 3, 10, false), Some(5));
    assert_eq!(find_free_track(&occ, 6, 10, true), None);
}
