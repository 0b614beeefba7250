use bili_add_on::double::Double;
use bili_add_on::timeline::{
    make_range, parse_capture_range, parse_time_point, parse_time_range, RangeError, TimeError,
};

fn float(d: Double) -> f64 {
    f64::from_bits(d.to_bits())
}

fn double(x: f64) -> Double {
    Double::from_bits(x.to_bits())
}

fn point(s: &str) -> f64 {
    float(parse_time_point(s).unwrap())
}

fn range(s: &str) -> (f64, f64) {
    let (start, end) = parse_time_range(s).unwrap();
    (float(start), float(end))
}

#[test]
fn test_parse_time_point_seconds() {
    assert!((point("3.1415926") - 3.1415926).abs() < 1e-9);
    assert!((point("0") - 0.0).abs() < 1e-9);
    assert!((point("0.5") - 0.5).abs() < 1e-9);
}

#[test]
fn test_parse_time_point_minutes_seconds() {
    assert!((point("162:12") - 9732.0).abs() < 1e-9);
    assert!((point("0:30") - 30.0).abs() < 1e-9);
}

#[test]
fn test_parse_time_point_hours_minutes_seconds() {
    assert!((point("1:23:2.21") - 4982.21).abs() < 1e-9);
    assert!((point("0:0:0.5") - 0.5).abs() < 1e-9);
}

#[test]
fn test_parse_time_point_invalid() {
    assert!(parse_time_point("abc").is_err());
    assert!(parse_time_point("1:2:3:4").is_err());
    assert!(parse_time_point("1:2:").is_err());
    assert!(parse_time_point(":2").is_err());
    assert!(parse_time_point("-5").is_err());
    assert!(parse_time_point("1:-2:3").is_err());
    assert!(parse_time_point("1.5:2").is_err());
    assert!(parse_time_point("NaN").is_err());
    assert!(parse_time_point("Infinity").is_err());
    assert!(parse_time_point("").is_err());
}

#[test]
fn test_parse_time_range_end_only() {
    let (start, end) = range("162:12");
    assert!((start - 0.0).abs() < 1e-9);
    assert!((end - 9732.0).abs() < 1e-9);
}

#[test]
fn test_parse_time_range_full() {
    let (start, end) = range("1:23-5:00");
    assert!((start - 83.0).abs() < 1e-9);
    assert!((end - 300.0).abs() < 1e-9);
}

#[test]
fn test_parse_time_range_mixed_formats() {
    let (start, end) = range("0:30-1:23:2.21");
    assert!((start - 30.0).abs() < 1e-9);
    assert!((end - 4982.21).abs() < 1e-9);
}

#[test]
fn test_parse_time_range_invalid() {
    assert!(parse_time_range("").is_err());
    assert!(parse_time_range("10-5").is_err());
    assert!(parse_time_range("5-5").is_err());
    assert!(parse_time_range("1:23-").is_err());
    assert!(parse_time_range("-5:00").is_err());
    assert!(parse_time_range("abc-def").is_err());
}

#[test]
fn test_parse_capture_range_rejects_start() {
    assert!(parse_capture_range("30").is_ok());
    assert!(parse_capture_range("1:23").is_ok());
    assert!(parse_capture_range("5-30").is_err());
    assert!(parse_capture_range("abc").is_err());
}

#[test]
fn times_round_as_doubles_do() {
    for (s, x) in [
        ("3.1415926", 3.1415926),
        ("1:23:2.21", 1.0 * 3600.0 + 23.0 * 60.0 + 2.21),
        ("7:0.1", 7.0 * 60.0 + 0.1),
        ("18446744073709551615:0", 18446744073709551615u64 as f64 * 60.0),
        ("1e3", 1e3),
    ] {
        assert_eq!(point(s), x);
    }
}

#[test]
fn each_fault_of_a_time_is_told() {
    assert_eq!(parse_time_point("1:2:3:4").unwrap_err(), TimeError::TooManyParts);
    assert_eq!(parse_time_point(":2").unwrap_err(), TimeError::EmptyPart);
    assert_eq!(parse_time_point("").unwrap_err(), TimeError::EmptyPart);
    assert_eq!(parse_time_point("x:2").unwrap_err(), TimeError::BadMinutes);
    assert_eq!(parse_time_point("x:1:2").unwrap_err(), TimeError::BadHours);
    assert_eq!(parse_time_point("1:x:2").unwrap_err(), TimeError::BadMinutes);
    assert_eq!(parse_time_point("x").unwrap_err(), TimeError::BadSeconds);
    assert_eq!(parse_time_point("-5").unwrap_err(), TimeError::SecondsOutOfRange);
    assert_eq!(parse_time_point("inf").unwrap_err(), TimeError::SecondsOutOfRange);
}

#[test]
fn each_fault_of_a_range_is_told() {
    assert_eq!(parse_time_range("").unwrap_err(), RangeError::Empty);
    assert_eq!(
        parse_time_range("x-5").unwrap_err(),
        RangeError::Start(TimeError::BadSeconds)
    );
    assert_eq!(
        parse_time_range("5-x").unwrap_err(),
        RangeError::End(TimeError::BadSeconds)
    );
    assert_eq!(
        parse_time_range("10-5").unwrap_err(),
        RangeError::Order { start: double(10.0), end: double(5.0) }
    );
    assert_eq!(parse_capture_range("5-30").unwrap_err(), RangeError::StartNotAllowed);
    assert_eq!(
        make_range(double(1.0), double(1.0)).unwrap_err(),
        RangeError::Order { start: double(1.0), end: double(1.0) }
    );
}

#[test]
fn a_capture_keeps_its_range_as_written() {
    assert_eq!(parse_capture_range("1:23").unwrap(), "1:23");
    assert_eq!(range("1:23"), (0.0, 83.0));
}

#[test]
fn points_in_time_are_finite() {
    let most = "18446744073709551615";
    for secs in ["0", "1e308", "1.7976931348623157e308"] {
        let t = parse_time_point(&format!("{most}:{most}:{secs}")).unwrap();
        assert!(t.is_finite() && Double::zero().lt(t));
        assert!(parse_time_point(&format!("{most}:{secs}")).unwrap().is_finite());
    }
    assert_eq!(parse_time_point("1e999"), Err(TimeError::SecondsOutOfRange));
}
