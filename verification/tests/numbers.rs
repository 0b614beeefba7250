use bili_add_on::double::Double;
use bili_add_on::duration::Duration;

fn double(x: f64) -> Double {
    Double::from_bits(x.to_bits())
}

/// Numbers of all kinds, for trying every pair of them.
fn samples() -> Vec<f64> {
    let mut v = vec![
        0.0,
        -0.0,
        1.0,
        -1.0,
        0.1,
        0.2,
        0.3,
        1.0 / 3.0,
        2.0,
        25.0,
        60.0,
        3600.0,
        1e-3,
        1e9,
        1e16,
        9007199254740993.0,
        4503599627370496.5,
        123456789.125,
        -987654.321,
        f64::MAX,
        -f64::MAX,
        f64::MIN_POSITIVE,
        5e-324,
        1.5e-323,
        2.2250738585072009e-308,
        1e-310,
        f64::INFINITY,
        f64::NEG_INFINITY,
        f64::NAN,
        f64::EPSILON,
        1.0 + f64::EPSILON,
        1.0 - f64::EPSILON / 2.0,
        18446744073709551616.0,
        9223372036854775808.0,
    ];
    let mut state: u64 = 0x9e37_79b9_7f4a_7c15;
    for _ in 0..40 {
        state ^= state << 13;
        state ^= state >> 7;
        state ^= state << 17;
        v.push(f64::from_bits(state));
        v.push((state >> 20) as f64 / 977.0);
    }
    v
}

fn assert_same(got: Double, want: f64, what: &str) {
    if want.is_nan() {
        assert!(got.is_nan(), "{what}");
    } else {
        assert_eq!(got.to_bits(), want.to_bits(), "{what}");
    }
}

#[test]
fn arithmetic_is_that_of_the_machine() {
    for x in samples() {
        for y in samples() {
            let (a, b) = (double(x), double(y));
            assert_same(a.plus(b), x + y, &format!("{x:e} + {y:e}"));
            assert_same(a.minus(b), x - y, &format!("{x:e} - {y:e}"));
            assert_same(a.times(b), x * y, &format!("{x:e} * {y:e}"));
            assert_same(a.over(b), x / y, &format!("{x:e} / {y:e}"));
        }
        assert_same(double(x).negate(), -x, "negate");
    }
}

#[test]
fn order_is_that_of_the_machine() {
    for x in samples() {
        for y in samples() {
            assert_eq!(double(x).lt(double(y)), x < y);
            assert_eq!(double(x).le(double(y)), x <= y);
            if !x.is_nan() && !y.is_nan() && x != y {
                assert_same(double(x).min(double(y)), x.min(y), "min");
                assert_same(double(x).max(double(y)), x.max(y), "max");
            }
        }
        assert_eq!(double(x).is_nan(), x.is_nan());
        assert_eq!(double(x).is_finite(), x.is_finite());
        assert_eq!(double(x).is_positive(), x > 0.0);
    }
}

#[test]
fn whole_numbers_convert_as_on_the_machine() {
    for x in samples() {
        assert_eq!(double(x).to_u64_saturating(), x as u64, "{x:e}");
        assert_eq!(double(x).ceil_to_u64(), x.ceil() as u64, "{x:e}");
        assert_eq!(double(x).round_to_i64(), x.round() as i64, "{x:e}");
    }
    for x in [0.5, 1.5, 2.5, -0.5, -1.5, -2.5, 0.49999999999999994, 4503599627370495.5] {
        assert_eq!(double(x).round_to_i64(), x.round() as i64, "{x:e}");
        assert_eq!(double(x).ceil_to_u64(), x.ceil() as u64, "{x:e}");
    }
    for n in [0, 1, 2, 3, 100, 1 << 53, (1 << 53) + 1, u64::MAX - 1, u64::MAX, 0x7fff_ffff_ffff_fdff] {
        assert_same(Double::from_u64(n), n as f64, "from_u64");
        assert_same(Double::single_from_u64(n), n as f32 as f64, "single_from_u64");
    }
    for n in [0, 1, -1, i64::MAX, i64::MIN, -(1 << 53) - 1, 123456789012345678] {
        assert_same(Double::from_i64(n), n as f64, "from_i64");
        assert_same(Double::single_from_i64(n), n as f32 as f64, "single_from_i64");
    }
}

#[test]
fn single_precision_is_that_of_the_machine() {
    for x in samples() {
        assert_same(double(x).to_single(), x as f32 as f64, &format!("{x:e} as f32"));
        for y in samples() {
            let (s, t) = (x as f32, y as f32);
            let (a, b) = (double(s as f64), double(t as f64));
            assert_same(a.times_single(b), (s * t) as f64, &format!("{s:e} * {t:e}"));
            assert_same(a.over_single(b), (s / t) as f64, &format!("{s:e} / {t:e}"));
        }
    }
}

#[test]
fn a_number_minus_itself_is_zero() {
    for x in samples() {
        if x.is_finite() {
            assert_eq!(double(x).minus(double(x)).to_bits(), 0);
        }
    }
}

#[test]
fn constants_are_what_they_are_called() {
    assert_eq!(Double::zero().to_bits(), 0.0f64.to_bits());
    assert_eq!(Double::one().to_bits(), 1.0f64.to_bits());
    assert_eq!(Double::infinity().to_bits(), f64::INFINITY.to_bits());
}

#[test]
fn durations_from_seconds_are_those_of_the_standard_library() {
    for x in samples() {
        let want = std::time::Duration::try_from_secs_f64(x).ok().map(|d| d.as_nanos());
        let got = Duration::try_from_secs(double(x)).map(|d| d.nanos);
        assert_eq!(got, want, "{x:e}");
    }
    for x in [0.954, 1.536, 2.375, 1e-9, 4.9e-10, 5e-10, 1.5e-9, 2.5e-9, 0.999999999999] {
        let want = std::time::Duration::try_from_secs_f64(x).ok().map(|d| d.as_nanos());
        assert_eq!(Duration::try_from_secs(double(x)).map(|d| d.nanos), want, "{x:e}");
    }
}

#[test]
fn seconds_of_durations_are_those_of_the_standard_library() {
    for nanos in [0u64, 1, 999_999_999, 1_000_000_000, 954_000_000, 123_456_789_012_345] {
        let std_span = std::time::Duration::from_nanos(nanos);
        let span = Duration { nanos: nanos as u128 };
        assert_eq!(span.as_secs().to_bits(), std_span.as_secs_f64().to_bits());
    }
}

#[test]
fn durations_add_and_subtract() {
    let a = Duration::from_secs(3);
    let b = Duration::from_millis(500);
    assert_eq!(a.plus(b).nanos, 3_500_000_000);
    assert_eq!(a.saturating_sub(b).nanos, 2_500_000_000);
    assert_eq!(b.saturating_sub(a).nanos, Duration::zero().nanos);
}
