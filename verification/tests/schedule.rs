use bili_add_on::danmaku::{Danmaku, DanmakuMode};
use bili_add_on::double::Double;
use bili_add_on::duration::Duration;
use bili_add_on::raster::Rgb;
use bili_add_on::schedule::{
    clip_to_range, compute_max_danmaku_deadline, plan_extent, Extent, Schedule,
};
use std::borrow::Cow;

fn double(x: f64) -> Double {
    Double::from_bits(x.to_bits())
}

fn danmaku(millis: u64, mode: DanmakuMode, text: &str) -> Danmaku {
    Danmaku {
        time: Duration::from_millis(millis),
        mode,
        font_size: 25,
        color: Rgb([255, 255, 255]),
        text: text.to_string(),
    }
}

fn scrolling(millis: u64, text: &str) -> Danmaku {
    danmaku(millis, DanmakuMode::Scroll, text)
}

fn advanced() -> DanmakuMode {
    let styles = Cow::Borrowed("1,7,25,255");
    let content = Cow::Borrowed(&br#"[0,0,"1-1",4.5,"x"]"#[..]);
    Danmaku::new(styles, content).unwrap().unwrap().mode
}

fn texts(v: &[Danmaku]) -> Vec<&str> {
    v.iter().map(|d| d.text.as_str()).collect()
}

#[test]
fn ranges_cut_and_shift_danmaku() {
    let all = vec![
        scrolling(999, "early"),
        scrolling(1000, "first"),
        scrolling(1999, "last"),
        scrolling(2000, "late"),
    ];
    let kept = clip_to_range(all, double(1.0), double(2.0));
    assert_eq!(texts(&kept), vec!["first", "last"]);
    assert_eq!(kept[0].time.nanos, 0);
    assert_eq!(kept[1].time.nanos, 999_000_000);
}

#[test]
fn danmaku_come_in_the_order_of_their_times() {
    let mut schedule = Schedule::new(vec![
        scrolling(3000, "c"),
        scrolling(1000, "a"),
        scrolling(2000, "b"),
        scrolling(4000, "d"),
    ]);
    assert!(schedule.take_ready(Duration::from_millis(999)).is_empty());
    assert_eq!(texts(&schedule.take_ready(Duration::from_millis(2000))), vec!["a", "b"]);
    assert!(schedule.take_ready(Duration::from_millis(2000)).is_empty());
    assert_eq!(texts(&schedule.take_ready(Duration::from_secs(9))), vec!["c", "d"]);
}

#[test]
fn the_last_danmaku_to_go_is_found() {
    let all = vec![
        scrolling(1000, "s"),
        danmaku(2000, DanmakuMode::Top, "t"),
        danmaku(9000, advanced(), "x"),
    ];
    let gone = compute_max_danmaku_deadline(&all, &vec![100, 50, 10], 640, 3, double(0.04), double(5.0));
    assert_eq!(gone, double(1.0 + 247.0 * 0.04));
    let gone = compute_max_danmaku_deadline(&all, &vec![100, 50, 10], 640, 30, double(0.04), double(5.0));
    assert_eq!(gone, double(9.0));
    let gone = compute_max_danmaku_deadline(&all, &vec![100, 50, 10], 640, 30, double(0.04), double(8.0));
    assert_eq!(gone, double(10.0));
    let all = vec![scrolling(1000, "s"), danmaku(9000, DanmakuMode::Bas, "b")];
    let gone = compute_max_danmaku_deadline(&all, &vec![100, 0], 640, 3, double(0.04), double(5.0));
    assert_eq!(gone, double(14.0));
    let gone = compute_max_danmaku_deadline(&vec![], &vec![], 640, 3, double(0.04), double(5.0));
    assert_eq!(gone, double(0.0));
}

#[test]
fn videos_are_extended_until_the_last_danmaku_is_gone() {
    let rate = double(25.0);
    let frame = double(0.04);
    let plain = plan_extent(None, 100, rate, frame, None);
    assert_eq!(plain, Extent { total_frames: 100, extend_to: None });
    let short = plan_extent(None, 100, rate, frame, Some(double(3.0)));
    assert_eq!(short, plain);
    let long = plan_extent(None, 100, rate, frame, Some(double(6.0)));
    let total = ((6.0f64 + 0.04) / 0.04).ceil() as u64;
    assert_eq!(long, Extent { total_frames: total, extend_to: Some(double(6.0)) });
    let range = Some((double(1.0), double(3.0)));
    let cut = plan_extent(range, 100, rate, frame, None);
    assert_eq!(cut, Extent { total_frames: 50, extend_to: None });
    let both = plan_extent(range, 100, rate, frame, Some(double(6.0)));
    assert_eq!(both, Extent { total_frames: total, extend_to: Some(double(3.0)) });
    let unknown = plan_extent(None, 100, double(0.0), frame, Some(double(0.5)));
    assert_eq!(unknown.extend_to, Some(double(0.5)));
}
