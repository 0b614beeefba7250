use bili_add_on::decoder::{
    choose_frame_rate, count_steps, plan_listing, DeviceListing, FrameFate, RangeStart, Rational,
    StreamFacts, VideoDecoder,
};
use bili_add_on::double::Double;

fn double(x: f64) -> Double {
    Double::from_bits(x.to_bits())
}

fn ratio(numerator: i32, denominator: i32) -> Rational {
    Rational { numerator, denominator }
}

fn facts() -> StreamFacts {
    StreamFacts {
        time_base: ratio(1, 1000),
        rate: ratio(30000, 1001),
        avg_frame_rate: ratio(25, 1),
        frames: 0,
        duration: 0,
    }
}

#[test]
fn the_frame_rate_is_chosen() {
    let single = |x: f32| double(x as f64);
    assert_eq!(choose_frame_rate(&facts(), None), single(30000f32 / 1001f32));
    let counted = StreamFacts { frames: 299, duration: 10_010, ..facts() };
    let secs = 10_010i64 as f64 * 1.0 / 1000.0;
    assert_eq!(choose_frame_rate(&counted, None), single(299i64 as f32 / secs as f32));
    let unknown = StreamFacts { rate: ratio(0, 0), ..facts() };
    assert_eq!(choose_frame_rate(&unknown, None), single(25.0));
    let nothing = StreamFacts { rate: ratio(0, 0), avg_frame_rate: ratio(0, 0), ..facts() };
    assert_eq!(choose_frame_rate(&nothing, Some(double(24.0))), double(24.0));
    assert_eq!(choose_frame_rate(&nothing, None), double(0.0));
}

fn decoder() -> VideoDecoder {
    VideoDecoder::new(640, 360, double(10.0), 50, ratio(1, 1000), true, false).unwrap()
}

#[test]
fn a_decoder_knows_its_video() {
    let d = decoder();
    assert_eq!(d.size(), (640, 360));
    assert_eq!(d.frame_rate(), double(10.0));
    assert_eq!(d.frame_count(), 50);
    assert!(VideoDecoder::new(0, 1, double(1.0), 0, ratio(1, 1), true, false).is_none());
    assert!(VideoDecoder::new(1, 0, double(1.0), 0, ratio(1, 1), true, false).is_none());
    let d = VideoDecoder::new(1, 1, double(1.0), -5, ratio(1, 1), true, false).unwrap();
    assert_eq!(d.frame_count(), 0);
}

#[test]
fn frames_outside_the_range_are_left_out() {
    let mut d = decoder();
    d.set_range(double(1.0), double(2.0));
    assert_eq!(d.begin_read(), Some(1_000_000));
    assert_eq!(d.begin_read(), None);
    assert_eq!(d.on_frame(Some(900)), (FrameFate::Skip, None));
    assert_eq!(d.on_frame(Some(1000)), (FrameFate::Show(double(0.0)), None));
    assert_eq!(d.on_frame(Some(1500)), (FrameFate::Show(double(0.5)), None));
    assert_eq!(d.on_frame(Some(2000)), (FrameFate::Stop, Some(2)));
    assert_eq!(d.on_frame(Some(2100)), (FrameFate::Stop, None));
}

#[test]
fn inputs_that_cannot_be_jumped_in_are_read_through() {
    let mut d = VideoDecoder::new(1, 1, double(10.0), 0, ratio(1, 1000), false, false).unwrap();
    assert_eq!(d.begin_read(), None);
    d.set_range(double(1.0), double(2.0));
    assert_eq!(d.begin_read(), None);
    let mut d = decoder();
    d.set_range(double(0.0), double(2.0));
    assert_eq!(d.begin_read(), None);
}

#[test]
fn live_input_starts_at_zero() {
    let mut d = VideoDecoder::new(1, 1, double(10.0), 0, ratio(1, 1000), false, true).unwrap();
    assert_eq!(d.on_frame(Some(5000)).0, FrameFate::Show(double(0.0)));
    assert_eq!(d.on_frame(Some(5250)).0, FrameFate::Show(double(0.25)));
}

#[test]
fn frames_without_a_time_are_shown_at_zero() {
    let mut d = decoder();
    assert_eq!(d.on_frame(None).0, FrameFate::Show(double(0.0)));
}

#[test]
fn black_frames_are_added_until_the_deadline() {
    let mut d = decoder();
    d.set_extend_to(double(1.0), double(0.125));
    d.on_frame(Some(0));
    d.on_frame(Some(250));
    d.on_frame(Some(500));
    assert!(d.on_again());
    d.on_input_end();
    assert!(!d.on_again());
    let first = d.on_end();
    assert_eq!(first.black_frame, Some(double(0.75)));
    assert_eq!(first.total, Some(5));
    let second = d.on_end();
    assert_eq!(second.black_frame, Some(double(1.0)));
    assert_eq!(second.total, None);
    assert_eq!(d.on_end().black_frame, None);
    assert_eq!(d.real_frame_count, 3);
    assert_eq!(d.extended_count, 2);
}

#[test]
fn black_frames_count_from_the_start_of_the_range() {
    let mut d = decoder();
    d.set_range(double(1.0), double(3.0));
    d.set_extend_to(double(2.75), double(0.5));
    d.begin_read();
    d.on_frame(Some(1500));
    d.on_frame(Some(2000));
    let first = d.on_end();
    assert_eq!(first.black_frame, Some(double(1.5)));
    assert_eq!(first.total, Some(3));
    assert_eq!(d.on_end().black_frame, None);
    let mut empty = decoder();
    empty.set_range(double(1.0), double(3.0));
    empty.set_extend_to(double(2.0), double(0.5));
    assert_eq!(empty.on_end().black_frame, Some(double(0.0)));
}

#[test]
fn as_many_frames_are_added_as_are_counted() {
    let range = Some((double(1.0), double(3.0)));
    for (range, deadline) in [(range, 2.0), (range, 9.0), (None, 1.0)] {
        let mut d = VideoDecoder::new(1, 1, double(4.0), 0, ratio(1, 1000), true, false).unwrap();
        if let Some((start, end)) = range {
            d.set_range(start, end);
        }
        d.set_extend_to(double(deadline), double(0.5));
        let first = d.on_end();
        assert_eq!(first.black_frame, Some(double(0.0)));
        let mut added = 1;
        while d.on_end().black_frame.is_some() {
            added += 1;
        }
        assert_eq!(first.total, Some(added));
        assert_eq!(added, if deadline == 9.0 { 8 } else { 6 });
        assert_eq!(d.extended_count, added);
    }
}

#[test]
fn without_extension_nothing_is_added() {
    let mut d = decoder();
    d.on_frame(Some(0));
    let ending = d.on_end();
    assert_eq!(ending.black_frame, None);
    assert_eq!(ending.total, Some(1));
}

#[test]
fn endless_extensions_are_not_counted() {
    assert_eq!(count_steps(double(0.25), double(0.25), double(1.0), None), Some(3));
    assert_eq!(count_steps(double(2.25), double(0.25), double(1.0), None), Some(0));
    assert_eq!(count_steps(double(0.0), double(0.0), double(1.0), None), None);
    assert_eq!(count_steps(double(0.0), double(-0.5), double(1.0), None), None);
    let range = Some((double(0.0), double(0.5)));
    assert_eq!(count_steps(double(0.25), double(0.25), double(1.0), range), Some(1));
}

#[test]
fn ranges_are_checked_against_the_video() {
    let d = decoder();
    let range = |start, end| Some((double(start), double(end)));
    assert_eq!(d.check_start(None), RangeStart::Within);
    assert_eq!(d.check_start(range(4.9, 10.0)), RangeStart::Within);
    assert_eq!(d.check_start(range(5.0, 10.0)), RangeStart::Beyond(double(5.0)));
    let unknown = VideoDecoder::new(1, 1, double(10.0), 0, ratio(1, 1), true, false).unwrap();
    assert_eq!(unknown.check_start(range(0.0, 1.0)), RangeStart::Unknown);
}

#[test]
fn devices_are_listed_by_format() {
    assert_eq!(plan_listing("gdigrab"), Some(DeviceListing::ScreenHint));
    assert_eq!(plan_listing("x11grab"), Some(DeviceListing::ScreenHint));
    assert_eq!(plan_listing("v4l2"), Some(DeviceListing::V4l2Hint));
    assert_eq!(plan_listing("dshow"), Some(DeviceListing::ProbeDummy));
    assert_eq!(plan_listing("avfoundation"), Some(DeviceListing::ProbeEmpty));
    assert_eq!(plan_listing("mp4"), None);
}
