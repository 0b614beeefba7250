use bili_add_on::danmaku::{Danmaku, DanmakuFault, DanmakuMode, OpacityGradient};
use bili_add_on::double::Double;
use bili_add_on::raster::Rgb;
use std::borrow::Cow;

fn double(x: f64) -> Double {
    Double::from_bits(x.to_bits())
}

fn read(styles: &str, content: &str) -> Option<Danmaku> {
    Danmaku::new(Cow::Borrowed(styles), Cow::Borrowed(content.as_bytes())).unwrap()
}

fn fault(styles: &str, content: &[u8]) -> DanmakuFault {
    Danmaku::new(Cow::Borrowed(styles), Cow::Borrowed(content)).unwrap_err().fault
}

#[test]
fn an_ordinary_danmaku_is_read() {
    let d = read("0.95400,1,25,16711680,1738389256,0,057b89f9,1156", "a &amp; b").unwrap();
    assert_eq!(d.time.nanos, 954_000_000);
    assert!(matches!(d.mode, DanmakuMode::Scroll));
    assert_eq!(d.font_size, 25);
    assert_eq!(d.color, Rgb([255, 0, 0]));
    assert_eq!(d.text, "a & b");
}

#[test]
fn modes_have_numbers() {
    for id in 1..=3 {
        assert!(matches!(DanmakuMode::from_id(id), Some(DanmakuMode::Scroll)));
    }
    assert!(matches!(DanmakuMode::from_id(4), Some(DanmakuMode::Bottom)));
    assert!(matches!(DanmakuMode::from_id(5), Some(DanmakuMode::Top)));
    assert!(matches!(DanmakuMode::from_id(6), Some(DanmakuMode::Reverse)));
    assert!(matches!(DanmakuMode::from_id(9), Some(DanmakuMode::Bas)));
    for id in [0, 7, 8, 10, usize::MAX] {
        assert!(DanmakuMode::from_id(id).is_none());
    }
}

#[test]
fn a_mode_that_is_not_known_is_passed_over() {
    assert!(read("1,8,25,255", "text").is_none());
}

#[test]
fn an_advanced_danmaku_is_read() {
    let json = r#"[0.1,-2,"0.25-0.75",4.5,"x&lt;y",10,20,300,400,1500,250,1,"Arial",0]"#;
    let d = read("1,7,25,255", json).unwrap();
    assert_eq!(d.text, "x<y");
    match d.mode {
        DanmakuMode::Advance {
            x,
            y,
            gradient,
            duration,
            end_x,
            end_y,
            z_rotate,
            y_rotate,
            move_duration,
            move_delay,
            stroke,
            font_family,
            linear_speed_up,
        } => {
            assert_eq!(x, double(0.1));
            assert_eq!(y, double(-2.0));
            assert_eq!(gradient.start, double(0.25));
            assert_eq!(gradient.end, double(0.75));
            assert_eq!(duration.nanos, 4_500_000_000);
            assert_eq!(z_rotate, double(10.0));
            assert_eq!(y_rotate, double(20.0));
            assert_eq!(end_x, double(300.0));
            assert_eq!(end_y, double(400.0));
            assert_eq!(move_duration.nanos, 1_500_000_000);
            assert_eq!(move_delay.nanos, 250_000_000);
            assert!(stroke);
            assert_eq!(font_family, "Arial");
            assert!(!linear_speed_up);
        }
        _ => panic!("not advanced"),
    }
}

#[test]
fn an_advanced_danmaku_has_defaults() {
    let d = read("1,7,25,255", r#"["x","y","0.5",null]"#).unwrap();
    assert_eq!(d.text, "");
    match d.mode {
        DanmakuMode::Advance { x, gradient, duration, stroke, font_family, .. } => {
            assert_eq!(x, double(0.0));
            assert_eq!(gradient.start, double(1.0));
            assert_eq!(gradient.end, double(1.0));
            assert_eq!(duration.nanos, 0);
            assert!(!stroke);
            assert_eq!(font_family, "");
        }
        _ => panic!("not advanced"),
    }
}

#[test]
fn gradients_keep_both_ends() {
    let g = OpacityGradient::new(double(0.5), double(0.25));
    assert_eq!(g.start, double(0.5));
    assert_eq!(g.end, double(0.25));
}

#[test]
fn each_fault_of_a_danmaku_is_told() {
    let text = b"text";
    assert_eq!(fault("", text), DanmakuFault::BadTime);
    assert_eq!(fault("x,1,25,255", text), DanmakuFault::BadTime);
    assert_eq!(fault("-1,1,25,255", text), DanmakuFault::TimeOutOfRange);
    assert_eq!(fault("inf,1,25,255", text), DanmakuFault::TimeOutOfRange);
    assert_eq!(fault("1", text), DanmakuFault::NoMode);
    assert_eq!(fault("1,x", text), DanmakuFault::BadMode);
    assert_eq!(fault("1,1", text), DanmakuFault::NoFontSize);
    assert_eq!(fault("1,1,x", text), DanmakuFault::BadFontSize);
    assert_eq!(fault("1,1,25", text), DanmakuFault::NoColor);
    assert_eq!(fault("1,1,25,x", text), DanmakuFault::BadColor);
    assert_eq!(fault("1,1,25,4294967296", text), DanmakuFault::BadColor);
    assert_eq!(fault("1,1,25,255", &[0xff, 0xfe]), DanmakuFault::NotUtf8);
    assert_eq!(fault("1,7,25,255", text), DanmakuFault::BadJson);
    assert_eq!(fault("1,7,25,255", b"{}"), DanmakuFault::BadJson);
    assert_eq!(fault("1,1,25,255", b"&unknown;"), DanmakuFault::BadReference);
    assert_eq!(fault("1,7,25,255", br#"[0,0,"1-1",-1]"#), DanmakuFault::TimeOutOfRange);
    assert_eq!(fault("1,8,25,255", b"&unknown;"), DanmakuFault::BadReference);
}
