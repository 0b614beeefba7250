use bili_add_on::danmaku::{Danmaku, DanmakuMode};
use bili_add_on::double::Double;
use bili_add_on::duration::Duration;
use bili_add_on::options::{DanmakuSource, RenderOptions};
use bili_add_on::raster::{Rgb, RgbImage, Rgba, RgbaImage};
use bili_add_on::stage::{
    count_frames_to_cross, lane_for, measure_ink, travel_for, Lane, Reception, Settings, Stage,
};
use std::borrow::Cow;

fn double(x: f64) -> Double {
    Double::from_bits(x.to_bits())
}

fn options() -> RenderOptions {
    RenderOptions {
        source: DanmakuSource { bvid: Some("BV1test".to_string()), xml: None },
        opacity: double(1.0),
        top_ratio: double(0.1),
        bottom_ratio: double(0.9),
        font_scale: double(1.0),
        font: vec![],
        system_fonts: false,
        speed: 3,
        line_spacing: 4,
        min_space: 20,
        fixed_duration: double(5.0),
        no_audio: false,
        quiet: false,
        encoder: "auto".to_string(),
        x264_preset: "medium".to_string(),
        longest: false,
        filter: None,
        audio: None,
        audio_range: None,
        lang: "auto".to_string(),
    }
}

#[test]
fn settings_follow_from_the_options() {
    let s = Settings::plan(640, 360, &options(), 20, double(0.04)).unwrap();
    assert_eq!(s.video_width, 640);
    assert_eq!(s.area_top, 36);
    assert_eq!(s.base_pitch, 24);
    assert_eq!(s.rail_cnt, (324 - 36) / 24);
    assert_eq!(s.o256, 256);
    assert_eq!(s.fixed_travel.unwrap().nanos, 5_000_000_000);
    assert!(s.is_valid());
    let mut endless = options();
    endless.fixed_duration = double(f64::INFINITY);
    let s = Settings::plan(640, 360, &endless, 20, double(0.04)).unwrap();
    assert!(s.fixed_travel.is_none());
    assert!(s.is_valid());
}

#[test]
fn only_fixed_danmaku_need_a_time_to_stay() {
    let mut endless = options();
    endless.fixed_duration = double(f64::INFINITY);
    let mut stage = Stage::new(Settings::plan(640, 360, &endless, 20, double(0.04)).unwrap());
    let now = Duration::zero();
    let scroll = danmaku(DanmakuMode::Scroll);
    assert_eq!(stage.receive(scroll, sprite(2, 1), now), Reception::Entered);
    let top = danmaku(DanmakuMode::Top);
    assert_eq!(stage.receive(top, sprite(2, 1), now), Reception::Refused);
}

#[test]
fn ink_is_at_least_one_row_high() {
    assert_eq!(measure_ink(Some((2, 30))), 28);
    assert_eq!(measure_ink(Some((2, 2))), 1);
    assert_eq!(measure_ink(None), 1);
}

#[test]
fn modes_have_lanes() {
    assert_eq!(lane_for(&DanmakuMode::Scroll), Some(Lane::Scroll));
    assert_eq!(lane_for(&DanmakuMode::Reverse), Some(Lane::Reverse));
    assert_eq!(lane_for(&DanmakuMode::Top), Some(Lane::Top));
    assert_eq!(lane_for(&DanmakuMode::Bottom), Some(Lane::Bottom));
    assert_eq!(lane_for(&DanmakuMode::Bas), Some(Lane::Bottom));
    assert_eq!(lane_for(&advanced()), None);
}

#[test]
fn crossing_takes_as_long_as_the_way_is() {
    let s = Settings::plan(640, 360, &options(), 20, double(0.04)).unwrap();
    assert_eq!(count_frames_to_cross(&s, 100), 247);
    assert_eq!(count_frames_to_cross(&s, 101), 247);
    assert_eq!(count_frames_to_cross(&s, 102), 248);
    let want = std::time::Duration::from_secs_f64(247.0 * 0.04).as_nanos();
    assert_eq!(travel_for(&s, Lane::Scroll, 100).unwrap().nanos, want);
    assert_eq!(travel_for(&s, Lane::Top, 100).unwrap().nanos, 5_000_000_000);
}

fn advanced() -> DanmakuMode {
    let styles = Cow::Borrowed("1,7,25,255");
    let content = Cow::Borrowed(&br#"[0,0,"1-1",4.5,"x"]"#[..]);
    Danmaku::new(styles, content).unwrap().unwrap().mode
}

fn sprite(width: u32, height: u32) -> RgbaImage {
    let mut sprite = RgbaImage::new(width, height);
    for x in 0..width {
        for y in 0..height {
            sprite.put_pixel(x, y, Rgba([255, 255, 255, 255]));
        }
    }
    sprite
}

fn danmaku(mode: DanmakuMode) -> Danmaku {
    Danmaku {
        time: Duration::zero(),
        mode,
        font_size: 25,
        color: Rgb([255, 255, 255]),
        text: "x".to_string(),
    }
}

fn lit(image: &RgbImage) -> Vec<(u32, u32)> {
    let (w, h) = image.dimensions();
    let mut at = vec![];
    for y in 0..h {
        for x in 0..w {
            if image.get_pixel(x, y).0[0] > 0 {
                at.push((x, y));
            }
        }
    }
    at
}

fn small_stage() -> Stage {
    let mut o = options();
    o.top_ratio = double(0.0);
    o.bottom_ratio = double(1.0);
    o.line_spacing = 0;
    o.min_space = 1;
    o.speed = 1;
    o.fixed_duration = double(0.3);
    let s = Settings::plan(6, 3, &o, 1, double(0.1)).unwrap();
    Stage::new(s)
}

fn enter(stage: &mut Stage, mode: DanmakuMode, width: u32, now: Duration) {
    let lane = lane_for(&mode).unwrap();
    let picture = sprite(width, 1);
    assert!(stage.admits(lane, 25, &picture, now));
    stage.enqueue(lane, danmaku(mode), picture, now);
}

fn frame(stage: &mut Stage, now: Duration) -> Vec<(u32, u32)> {
    let mut image = RgbImage::new(6, 3);
    assert!(stage.can_render(now));
    stage.render(&mut image, now);
    lit(&image)
}

#[test]
fn danmaku_that_rush_past_do_not_stop_the_video() {
    let mut o = options();
    o.top_ratio = double(0.0);
    o.bottom_ratio = double(1.0);
    o.line_spacing = 0;
    o.speed = 3_000_000_000;
    let mut stage = Stage::new(Settings::plan(6, 3, &o, 1, double(0.1)).unwrap());
    let at = |n: u64| Duration::from_millis(n);
    enter(&mut stage, DanmakuMode::Scroll, 2, at(0));
    enter(&mut stage, DanmakuMode::Reverse, 2, at(0));
    for n in [0, 10, 20, 30, 100, 200] {
        assert_eq!(frame(&mut stage, at(n)), vec![]);
    }
    enter(&mut stage, DanmakuMode::Top, 2, at(200));
    assert_eq!(frame(&mut stage, at(200)), vec![(2, 0), (3, 0)]);
}

#[test]
fn danmaku_beyond_the_last_row_do_not_show() {
    let mut o = options();
    o.top_ratio = double(0.0);
    o.bottom_ratio = double(1e9);
    o.line_spacing = 0;
    let s = Settings::plan(6, 3, &o, 1, double(0.1)).unwrap();
    assert_eq!((s.area_top, s.rail_cnt), (0, 3_000_000_000));
    let mut stage = Stage::new(s);
    let now = Duration::zero();
    enter(&mut stage, DanmakuMode::Bottom, 2, now);
    assert_eq!(frame(&mut stage, now), vec![]);
    enter(&mut stage, DanmakuMode::Top, 2, now);
    enter(&mut stage, DanmakuMode::Top, 2, now);
    assert_eq!(frame(&mut stage, now), vec![(2, 0), (3, 0), (2, 1), (3, 1)]);
    let tall = Settings::plan(1920, 1080, &RenderOptions { bottom_ratio: double(2e6), ..options() }, 20, double(0.1));
    assert_eq!(tall.unwrap().rail_cnt, (2_160_000_000 - 108) / 24);
}

#[test]
fn a_danmaku_scrolls_from_right_to_left() {
    let mut stage = small_stage();
    let at = |n: u64| Duration::from_millis(n * 100);
    enter(&mut stage, DanmakuMode::Scroll, 2, at(0));
    assert_eq!(frame(&mut stage, at(0)), vec![]);
    assert_eq!(frame(&mut stage, at(1)), vec![(5, 0)]);
    assert_eq!(frame(&mut stage, at(2)), vec![(4, 0), (5, 0)]);
    assert_eq!(frame(&mut stage, at(3)), vec![(3, 0), (4, 0)]);
    for n in 4..7 {
        frame(&mut stage, at(n));
    }
    assert_eq!(frame(&mut stage, at(7)), vec![(0, 0)]);
    assert_eq!(frame(&mut stage, at(8)), vec![]);
}

#[test]
fn a_reverse_danmaku_scrolls_from_left_to_right() {
    let mut stage = small_stage();
    let at = |n: u64| Duration::from_millis(n * 100);
    enter(&mut stage, DanmakuMode::Reverse, 2, at(0));
    assert_eq!(frame(&mut stage, at(0)), vec![]);
    assert_eq!(frame(&mut stage, at(1)), vec![(0, 0)]);
    assert_eq!(frame(&mut stage, at(2)), vec![(0, 0), (1, 0)]);
}

#[test]
fn fixed_danmaku_stand_in_the_middle_and_go() {
    let mut stage = small_stage();
    let at = |n: u64| Duration::from_millis(n * 100);
    enter(&mut stage, DanmakuMode::Top, 2, at(0));
    enter(&mut stage, DanmakuMode::Top, 2, at(0));
    enter(&mut stage, DanmakuMode::Bottom, 4, at(0));
    let want = vec![(2, 0), (3, 0), (2, 1), (3, 1), (1, 2), (2, 2), (3, 2), (4, 2)];
    assert_eq!(frame(&mut stage, at(0)), want);
    assert_eq!(frame(&mut stage, at(2)), want);
    assert_eq!(frame(&mut stage, at(3)), vec![]);
}

#[test]
fn scrolling_danmaku_do_not_collide() {
    let mut stage = small_stage();
    let at = |n: u64| Duration::from_millis(n * 100);
    for _ in 0..3 {
        enter(&mut stage, DanmakuMode::Scroll, 2, at(0));
    }
    frame(&mut stage, at(0));
    let shown = frame(&mut stage, at(2));
    assert_eq!(shown, vec![(5, 0), (5, 1), (5, 2)]);
}

#[test]
fn danmaku_are_received_by_their_mode() {
    let mut stage = small_stage();
    let now = Duration::zero();
    assert_eq!(stage.receive(danmaku(advanced()), sprite(2, 1), now), Reception::NoLane);
    let endless = Duration { nanos: u128::MAX };
    let top = danmaku(DanmakuMode::Top);
    assert_eq!(stage.receive(top.clone(), sprite(2, 1), endless), Reception::Refused);
    assert_eq!(stage.receive(top, sprite(2, 1), now), Reception::Entered);
    let mut image = RgbImage::new(6, 3);
    assert!(stage.try_render(&mut image, now));
    assert_eq!(lit(&image), vec![(2, 0), (3, 0)]);
}

#[test]
fn scripted_danmaku_are_shown_at_the_bottom() {
    let now = Duration::zero();
    let mut stage = small_stage();
    let reception = stage.receive(danmaku(DanmakuMode::Bas), sprite(2, 1), now);
    assert_eq!(reception, Reception::Entered);
    let mut image = RgbImage::new(6, 3);
    assert!(stage.try_render(&mut image, now));
    assert_eq!(lit(&image), vec![(2, 2), (3, 2)]);
    let gone = Duration::from_millis(300);
    assert_eq!(frame(&mut stage, gone), vec![]);
}

#[test]
fn advanced_danmaku_leave_the_picture_as_it_is() {
    let now = Duration::zero();
    let mut stage = small_stage();
    stage.receive(danmaku(advanced()), sprite(2, 1), now);
    let mut image = RgbImage::new(6, 3);
    image.put_pixel(1, 1, Rgb([9, 8, 7]));
    assert!(stage.try_render(&mut image, now));
    assert_eq!(lit(&image), vec![(1, 1)]);
    assert_eq!(image.get_pixel(1, 1).0, [9, 8, 7]);
}

#[test]
fn danmaku_without_room_wait_or_are_dropped() {
    let mut stage = small_stage();
    let at = |n: u64| Duration::from_millis(n * 100);
    for _ in 0..4 {
        enter(&mut stage, DanmakuMode::Top, 2, at(0));
    }
    assert_eq!(frame(&mut stage, at(0)).len(), 6);
    // The fourth found no room at once, and would not be shown long enough any more.
    assert_eq!(frame(&mut stage, at(3)).len(), 0);
}
