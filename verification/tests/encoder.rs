use bili_add_on::decoder::Rational;
use bili_add_on::double::Double;
use bili_add_on::encoder::{
    frame_duration, layout_for, on_packet, Attempts, Drain, FrameClock, PacketAction, PacketEvent,
    PixelLayout, StageTimings,
};
use bili_add_on::hw::{EncoderPref, HwCodec};

fn double(x: f64) -> Double {
    Double::from_bits(x.to_bits())
}

#[test]
fn frames_last_as_long_as_the_rate_says() {
    assert_eq!(frame_duration(double(25.0)), Some(double(1.0 / 25.0)));
    let rate = 29.97f32 as f64;
    assert_eq!(frame_duration(double(rate)), Some(double(1.0 / rate)));
    assert_eq!(frame_duration(double(0.0)), None);
    assert_eq!(frame_duration(double(-1.0)), None);
}

#[test]
fn encoders_are_tried_in_turn() {
    let mut attempts = Attempts::new(EncoderPref::Specific(HwCodec::Qsv));
    assert_eq!(attempts.take(), Some(Some(HwCodec::Qsv)));
    assert_eq!(attempts.take(), Some(None));
    assert_eq!(attempts.take(), None);
    assert_eq!(attempts.take(), None);
}

#[test]
fn frames_are_stamped() {
    let mut clock = FrameClock::new(Rational { numerator: 1, denominator: 1_000_000 });
    let mut keys = vec![];
    for i in 0..25 {
        let secs = i as f64 / 30.0;
        let stamp = clock.stamp(double(secs));
        assert_eq!(stamp.pts, (secs * 1_000_000.0 / 1.0).round() as i64);
        if stamp.key {
            keys.push(i);
        }
    }
    assert_eq!(keys, vec![0, 12, 24]);
}

#[test]
fn packets_are_written_while_there_are_any() {
    assert_eq!(on_packet(PacketEvent::Packet), PacketAction::Write);
    assert_eq!(on_packet(PacketEvent::Again), PacketAction::Done);
    assert_eq!(on_packet(PacketEvent::Eof), PacketAction::Done);
    assert_eq!(on_packet(PacketEvent::Failed), PacketAction::Fail);
}

#[test]
fn draining_gives_up_at_last() {
    let mut drain = Drain::new();
    for _ in 0..150 {
        assert_eq!(drain.on_packet(PacketEvent::Again), PacketAction::Wait);
    }
    assert_eq!(drain.on_packet(PacketEvent::Packet), PacketAction::Write);
    for _ in 0..199 {
        assert_eq!(drain.on_packet(PacketEvent::Again), PacketAction::Wait);
    }
    assert_eq!(drain.on_packet(PacketEvent::Again), PacketAction::Done);
    let mut drain = Drain::new();
    assert_eq!(drain.on_packet(PacketEvent::Eof), PacketAction::Done);
    assert_eq!(drain.on_packet(PacketEvent::Failed), PacketAction::Fail);
}

#[test]
fn layouts_go_with_encoders() {
    assert_eq!(layout_for(true), PixelLayout::Nv12);
    assert_eq!(layout_for(false), PixelLayout::Yuv420p);
    assert_eq!(StageTimings::new().frames, 0);
}
