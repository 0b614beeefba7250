use bili_add_on::audio::{output_index, AudioWindow, PacketFate};
use bili_add_on::decoder::Rational;
use bili_add_on::double::Double;

fn double(x: f64) -> Double {
    Double::from_bits(x.to_bits())
}

fn range(start: f64, end: f64) -> Option<(Double, Double)> {
    Some((double(start), double(end)))
}

const MILLIS: Rational = Rational { numerator: 1, denominator: 1000 };

#[test]
fn windows_combine_both_ranges() {
    let w = AudioWindow::new(range(5.0, 10.0), range(0.0, 3.0));
    assert_eq!((w.start, w.end), (double(5.0), double(8.0)));
    let w = AudioWindow::new(range(5.0, 10.0), range(2.0, 30.0));
    assert_eq!((w.start, w.end), (double(7.0), double(10.0)));
    let w = AudioWindow::new(range(5.0, 10.0), None);
    assert_eq!((w.start, w.end), (double(5.0), double(10.0)));
    let w = AudioWindow::new(None, range(2.0, 4.0));
    assert_eq!((w.start, w.end), (double(2.0), double(4.0)));
    let w = AudioWindow::new(None, None);
    assert_eq!((w.start, w.end), (double(0.0), double(f64::INFINITY)));
}

#[test]
fn packets_are_cut_and_brought_forward() {
    let w = AudioWindow::new(range(5.0, 10.0), range(0.0, 3.0));
    assert_eq!(w.shift_units(MILLIS), 5000);
    assert_eq!(w.retime(MILLIS, Some(4999), None), Some(PacketFate::Drop));
    assert_eq!(
        w.retime(MILLIS, Some(5000), Some(4990)),
        Some(PacketFate::Keep { pts: 0, dts: Some(-10) })
    );
    assert_eq!(
        w.retime(MILLIS, Some(7999), None),
        Some(PacketFate::Keep { pts: 2999, dts: None })
    );
    assert_eq!(w.retime(MILLIS, Some(8000), None), Some(PacketFate::Drop));
    assert_eq!(w.retime(MILLIS, None, Some(6000)), Some(PacketFate::Drop));
    assert_eq!(w.retime(MILLIS, Some(6000), Some(i64::MIN)), None);
}

#[test]
fn two_cuts_are_one() {
    let (audio, video) = ((5.0, 10.0), (1.0, 3.0));
    let w = AudioWindow::new(range(audio.0, audio.1), range(video.0, video.1));
    for ms in (0..12_000).step_by(250) {
        let t = ms as f64 / 1000.0;
        let kept = audio.0 <= t && t < audio.1 && video.0 <= t - audio.0 && t - audio.0 < video.1;
        let fate = w.retime(MILLIS, Some(ms), None).unwrap();
        assert_eq!(fate != PacketFate::Drop, kept, "{ms}");
    }
}

#[test]
fn shifts_truncate() {
    let w = AudioWindow::new(range(1.2345, 2.0), None);
    assert_eq!(w.shift_units(MILLIS), 1234);
    let w = AudioWindow { start: double(-1.2345), end: double(2.0) };
    assert_eq!(w.shift_units(MILLIS), -1234);
}

#[test]
fn audio_streams_follow_the_video_streams() {
    let audio = vec![1, 4, 6];
    assert_eq!(output_index(&audio, 2, 1), Some(2));
    assert_eq!(output_index(&audio, 2, 6), Some(4));
    assert_eq!(output_index(&audio, 2, 0), None);
}
