//! Points in time and ranges of time, as they are written on the command line.

use crate::arith::{
    is_amount, law_sum_is_near, law_sum_of_amounts, law_whole_is_amount, law_whole_is_exact,
    lemma_product_of_wholes, lemma_rounds_below_power, lemma_small_summand, lemma_sum_of_wholes,
    of_whole, product, size, sum,
};
use crate::double::{parse_double, unit, written_double, Double};
use crate::text::{
    contains_char, cut, decimal, fields, law_cut_at_first, law_cut_of_joined, law_fields_of_joined,
    law_written_number_reads_back, lemma_decimal_holds_no_separator, lemma_fields_nonempty,
    lemma_one_field, parse_unsigned, split, split_once, texts, unsigned,
};
use vstd::arithmetic::power2::*;
use vstd::prelude::*;

verus! {

/// Why a point in time cannot be read.
#[derive(Clone, Copy, Debug, PartialEq, Eq, Structural)]
pub enum TimeError {
    /// It has more parts than hours, minutes and seconds.
    TooManyParts,
    /// One of its parts is empty.
    EmptyPart,
    /// The hours are not a whole number.
    BadHours,
    /// The minutes are not a whole number.
    BadMinutes,
    /// The seconds are not a number.
    BadSeconds,
    /// The seconds are negative or not finite.
    SecondsOutOfRange,
}

/// Why a range of time cannot be read.
#[derive(Clone, Copy, Debug, PartialEq, Eq, Structural)]
pub enum RangeError {
    /// There is nothing to read.
    Empty,
    /// The start cannot be read.
    Start(TimeError),
    /// The end cannot be read.
    End(TimeError),
    /// The start does not come before the end.
    Order { start: Double, end: Double },
    /// A start is given where none is allowed.
    StartNotAllowed,
}

/// The seconds that `secs` writes, if it writes a number: they must be finite and not negative.
pub open spec fn seconds_of(secs: Option<Double>) -> Result<Double, TimeError> {
    match secs {
        None => Err(TimeError::BadSeconds),
        Some(s) => if !s.spec_is_finite() || s.value() < 0 {
            Err(TimeError::SecondsOutOfRange)
        } else {
            Ok(s)
        },
    }
}

/// The number of seconds that hours, minutes and seconds, or some of them from the right, make up,
/// where `secs` is the number that the last part writes.
pub open spec fn point_of(parts: Seq<Seq<char>>, secs: Option<Double>) -> Result<
    Double,
    TimeError,
> {
    if parts.len() > 3 {
        Err(TimeError::TooManyParts)
    } else if exists|i: int| 0 <= i < parts.len() && (#[trigger] parts[i]).len() == 0 {
        Err(TimeError::EmptyPart)
    } else if parts.len() == 1 {
        seconds_of(secs)
    } else if parts.len() == 2 {
        match (unsigned(parts[0], u64::MAX as nat), seconds_of(secs)) {
            (None, _) => Err(TimeError::BadMinutes),
            (_, Err(e)) => Err(e),
            (Some(m), Ok(s)) => Ok(sum(product(of_whole(m), of_whole(60)), s)),
        }
    } else {
        match (
            unsigned(parts[0], u64::MAX as nat),
            unsigned(parts[1], u64::MAX as nat),
            seconds_of(secs),
        ) {
            (None, _, _) => Err(TimeError::BadHours),
            (_, None, _) => Err(TimeError::BadMinutes),
            (_, _, Err(e)) => Err(e),
            (Some(h), Some(m), Ok(s)) => Ok(
                sum(
                    sum(product(of_whole(h), of_whole(3600)), product(of_whole(m), of_whole(60))),
                    s,
                ),
            ),
        }
    }
}

/// The number of seconds that a text writes.
pub open spec fn time_of(s: Seq<char>) -> Result<Double, TimeError> {
    let parts = fields(s, ':');
    point_of(parts, written_double(parts.last()))
}

/// The start and the end of the range that a text writes, in seconds; the start is zero if only the
/// end is written.
pub open spec fn range_of(s: Seq<char>) -> Result<(Double, Double), RangeError> {
    if s.len() == 0 {
        Err(RangeError::Empty)
    } else {
        match cut(s, '-') {
            Some((a, b)) => match (time_of(a), time_of(b)) {
                (Err(e), _) => Err(RangeError::Start(e)),
                (_, Err(e)) => Err(RangeError::End(e)),
                (Ok(start), Ok(end)) => ordered(start, end),
            },
            None => match time_of(s) {
                Err(e) => Err(RangeError::End(e)),
                Ok(end) => ordered(Double { bits: 0 }, end),
            },
        }
    }
}

/// A range whose start comes before its end.
pub open spec fn ordered(start: Double, end: Double) -> Result<(Double, Double), RangeError> {
    if end.at_most(start) {
        Err(RangeError::Order { start, end })
    } else {
        Ok((start, end))
    }
}

fn read_seconds(secs: Option<Double>) -> (r: Result<Double, TimeError>)
    ensures
        r == seconds_of(secs),
{
    match secs {
        None => Err(TimeError::BadSeconds),
        Some(s) => if !s.is_finite() || s.lt(Double::zero()) {
            Err(TimeError::SecondsOutOfRange)
        } else {
            Ok(s)
        },
    }
}

/// Adds hours, minutes and seconds up, where `secs` is the number that the last part writes.
pub fn read_parts(parts: &Vec<String>, secs: Option<Double>) -> (r: Result<Double, TimeError>)
    requires
        parts@.len() >= 1,
    ensures
        r == point_of(texts(parts@), secs),
{
    let ghost views = texts(parts@);
    if parts.len() > 3 {
        return Err(TimeError::TooManyParts);
    }
    let mut i: usize = 0;
    while i < parts.len()
        invariant
            parts@.len() <= 3,
            views == texts(parts@),
            i <= parts@.len(),
            forall|k: int| 0 <= k < i ==> (#[trigger] views[k]).len() > 0,
        decreases parts@.len() - i,
    {
        assert(views[i as int] == parts@[i as int]@);
        if parts[i].as_str().is_empty() {
            return Err(TimeError::EmptyPart);
        }
        i += 1;
    }
    if parts.len() == 1 {
        return read_seconds(secs);
    }
    assert(views[0] == parts@[0]@ && views[1] == parts@[1]@);
    let sixty = Double::from_u64(60);
    if parts.len() == 2 {
        let m: u64 = match parse_unsigned(parts[0].as_str(), u64::MAX) {
            Some(m) => m,
            None => {
                return Err(TimeError::BadMinutes);
            },
        };
        let s = match read_seconds(secs) {
            Ok(s) => s,
            Err(e) => {
                return Err(e);
            },
        };
        return Ok(Double::from_u64(m).times(sixty).plus(s));
    }
    let h: u64 = match parse_unsigned(parts[0].as_str(), u64::MAX) {
        Some(h) => h,
        None => {
            return Err(TimeError::BadHours);
        },
    };
    let m: u64 = match parse_unsigned(parts[1].as_str(), u64::MAX) {
        Some(m) => m,
        None => {
            return Err(TimeError::BadMinutes);
        },
    };
    let s = match read_seconds(secs) {
        Ok(s) => s,
        Err(e) => {
            return Err(e);
        },
    };
    Ok(
        Double::from_u64(h).times(Double::from_u64(3600)).plus(
            Double::from_u64(m).times(sixty),
        ).plus(s),
    )
}

/// Reads a point in time: hours, minutes and seconds, or minutes and seconds, or seconds, with
/// colons between them. Hours and minutes are whole numbers; seconds may have a fraction.
pub fn parse_time_point(s: &str) -> (r: Result<Double, TimeError>)
    ensures
        r == time_of(s@),
{
    let parts = split(s, ':');
    let last: usize = parts.len() - 1;
    assert(texts(parts@).last() == parts@[last as int]@);
    let secs = parse_double(parts[last].as_str());
    read_parts(&parts, secs)
}

/// Puts a range together, whose start must come before its end.
pub fn make_range(start: Double, end: Double) -> (r: Result<(Double, Double), RangeError>)
    ensures
        r == ordered(start, end),
{
    if end.le(start) {
        Err(RangeError::Order { start, end })
    } else {
        Ok((start, end))
    }
}

/// Reads a range of time: a start and an end with a hyphen between them, or an end alone.
pub fn parse_time_range(s: &str) -> (r: Result<(Double, Double), RangeError>)
    ensures
        r == range_of(s@),
{
    if s.is_empty() {
        return Err(RangeError::Empty);
    }
    match split_once(s, '-') {
        Some((a, b)) => {
            let start = match parse_time_point(a.as_str()) {
                Ok(t) => t,
                Err(e) => {
                    return Err(RangeError::Start(e));
                },
            };
            let end = match parse_time_point(b.as_str()) {
                Ok(t) => t,
                Err(e) => {
                    return Err(RangeError::End(e));
                },
            };
            make_range(start, end)
        },
        None => match parse_time_point(s) {
            Ok(end) => make_range(Double::zero(), end),
            Err(e) => Err(RangeError::End(e)),
        },
    }
}

/// Whether a text writes a range for a source without an end: an end alone.
pub open spec fn capture_range_of(s: Seq<char>) -> Result<Seq<char>, RangeError> {
    if s.contains('-') {
        Err(RangeError::StartNotAllowed)
    } else {
        match range_of(s) {
            Ok(_) => Ok(s),
            Err(e) => Err(e),
        }
    }
}

/// Checks a range for a source without an end, and hands it back as it is written.
pub fn parse_capture_range(s: &str) -> (r: Result<String, RangeError>)
    ensures
        match r {
            Ok(t) => capture_range_of(s@) == Ok::<Seq<char>, RangeError>(t@),
            Err(e) => capture_range_of(s@) == Err::<Seq<char>, RangeError>(e),
        },
{
    if contains_char(s, '-') {
        return Err(RangeError::StartNotAllowed);
    }
    match parse_time_range(s) {
        Ok(_) => Ok(s.to_owned()),
        Err(e) => Err(e),
    }
}

/// Hours, or minutes, in seconds are finite, and far from the greatest finite number.
proof fn lemma_whole_parts(n: nat, unit_secs: nat)
    requires
        n <= u64::MAX,
        unit_secs <= 3600,
    ensures
        ({
            let d = product(of_whole(n), of_whole(unit_secs));
            &&& d.spec_is_finite()
            &&& is_amount(d)
            &&& d.value() <= pow2(1150)
        }),
{
    let u = unit();
    let a = of_whole(n);
    let b = of_whole(unit_secs);
    lemma2_to64();
    lemma2_to64_rest();
    lemma_pow2_pos(1074);
    lemma_pow2_adds(64, 1074);
    lemma_pow2_adds(12, 1074);
    lemma_pow2_adds(1138, 1086);
    lemma_pow2_adds(1074, 1150);
    assert(n * u <= 0x1_0000_0000_0000_0000 * u && unit_secs * u <= 0x1000 * u) by (nonlinear_arith)
        requires
            n <= 0x1_0000_0000_0000_0000,
            unit_secs <= 0x1000,
    ;
    lemma_rounds_below_power(n * u, 1, 1138);
    lemma_rounds_below_power(unit_secs * u, 1, 1086);
    law_whole_is_amount(n);
    law_whole_is_amount(unit_secs);
    let p = pow2(1138);
    let q = pow2(1086);
    assert(size(a) * size(b) <= p * q) by (nonlinear_arith)
        requires
            size(a) <= p,
            size(b) <= q,
    ;
    lemma_rounds_below_power(size(a) * size(b), u, 1150);
}

/// A point in time is a finite number, and never negative.
pub proof fn law_time_is_finite_amount(s: Seq<char>)
    requires
        time_of(s) is Ok,
    ensures
        is_amount(time_of(s)->Ok_0),
        time_of(s)->Ok_0.spec_is_finite(),
{
    let parts = fields(s, ':');
    let secs = seconds_of(written_double(parts.last()));
    lemma_pow2_unfold(1151);
    lemma_pow2_unfold(1152);
    lemma_pow2_strictly_increases(1152, 2045);
    if parts.len() == 2 {
        let m = unsigned(parts[0], u64::MAX as nat)->0;
        let a = product(of_whole(m), of_whole(60));
        lemma_whole_parts(m, 60);
        law_sum_of_amounts(a, secs->Ok_0);
        lemma_small_summand(a, secs->Ok_0);
    } else if parts.len() == 3 {
        let h = unsigned(parts[0], u64::MAX as nat)->0;
        let m = unsigned(parts[1], u64::MAX as nat)->0;
        let a = product(of_whole(h), of_whole(3600));
        let b = product(of_whole(m), of_whole(60));
        lemma_whole_parts(h, 3600);
        lemma_whole_parts(m, 60);
        law_sum_of_amounts(a, b);
        lemma_small_summand(a, b);
        if a.value() + b.value() > 0 {
            lemma_rounds_below_power((a.value() + b.value()) as nat, 1, 1151);
        }
        law_sum_of_amounts(sum(a, b), secs->Ok_0);
        lemma_small_summand(sum(a, b), secs->Ok_0);
    } else {
        lemma_fields_nonempty(s, ':');
    }
}

/// The start of a range comes before its end; both are finite, and neither is negative.
pub proof fn law_range_is_ordered(s: Seq<char>)
    requires
        range_of(s) is Ok,
    ensures
        ({
            let (start, end) = range_of(s)->Ok_0;
            &&& is_amount(start) && start.spec_is_finite()
            &&& is_amount(end) && end.spec_is_finite()
            &&& start.below(end)
        }),
{
    match cut(s, '-') {
        Some((a, b)) => {
            law_time_is_finite_amount(a);
            law_time_is_finite_amount(b);
        },
        None => {
            law_time_is_finite_amount(s);
            crate::double::lemma_magnitudes_ordered(0, 0);
        },
    }
}

/// A range that is accepted for a source without an end starts at zero.
pub proof fn law_capture_starts_at_zero(s: Seq<char>)
    requires
        capture_range_of(s) is Ok,
    ensures
        range_of(s) is Ok,
        ({
            let (start, end) = range_of(s)->Ok_0;
            start == Double { bits: 0 }
        }),
{
}

/// Seconds alone are read as they are.
pub proof fn law_seconds_read_as_written(secs: Seq<char>, x: Double)
    requires
        !secs.contains(':'),
        secs.len() > 0,
        written_double(secs) == Some(x),
        x.spec_is_finite(),
        x.value() >= 0,
    ensures
        time_of(secs) == Ok::<Double, TimeError>(x),
{
    lemma_one_field(secs, ':');
}

/// A written number of hours, minutes and seconds is 3600 times the hours, 60 times the minutes and
/// the seconds together, rounded once.
pub proof fn law_hours_minutes_seconds_add_up(h: nat, m: nat, secs: Seq<char>, x: Double)
    requires
        3600 * h + 60 * m < pow2(53),
        !secs.contains(':'),
        secs.len() > 0,
        written_double(secs) == Some(x),
        x.spec_is_finite(),
        x.value() >= 0,
    ensures
        ({
            let text = decimal(h).push(':') + (decimal(m).push(':') + secs);
            let exact = (3600 * h + 60 * m) * unit() + x.value();
            match time_of(text) {
                Ok(t) => {
                    &&& pow2(53) * (t.value() - exact) <= exact
                    &&& pow2(53) * (exact - t.value()) <= exact
                },
                Err(_) => false,
            }
        }),
{
    let inner = decimal(m).push(':') + secs;
    let text = decimal(h).push(':') + inner;
    lemma2_to64();
    lemma2_to64_rest();
    lemma_decimal_holds_no_separator(h, ':');
    lemma_decimal_holds_no_separator(m, ':');
    lemma_one_field(decimal(h), ':');
    lemma_one_field(decimal(m), ':');
    lemma_one_field(secs, ':');
    law_fields_of_joined(decimal(m), secs, ':');
    law_fields_of_joined(decimal(h), inner, ':');
    let parts = fields(text, ':');
    assert(parts =~= seq![decimal(h), decimal(m), secs]);
    law_written_number_reads_back(h, u64::MAX as nat);
    law_written_number_reads_back(m, u64::MAX as nat);
    lemma_product_of_wholes(h, 3600);
    lemma_product_of_wholes(m, 60);
    assert(h * 3600 == 3600 * h && m * 60 == 60 * m);
    lemma_sum_of_wholes(3600 * h, 60 * m);
    lemma_rounds_once(3600 * h + 60 * m, x);
}

/// A written number of minutes and seconds is 60 times the minutes and the seconds together, rounded
/// once.
pub proof fn law_minutes_seconds_add_up(m: nat, secs: Seq<char>, x: Double)
    requires
        60 * m < pow2(53),
        !secs.contains(':'),
        secs.len() > 0,
        written_double(secs) == Some(x),
        x.spec_is_finite(),
        x.value() >= 0,
    ensures
        ({
            let exact = (60 * m) * unit() + x.value();
            match time_of(decimal(m).push(':') + secs) {
                Ok(t) => {
                    &&& pow2(53) * (t.value() - exact) <= exact
                    &&& pow2(53) * (exact - t.value()) <= exact
                },
                Err(_) => false,
            }
        }),
{
    let text = decimal(m).push(':') + secs;
    lemma2_to64();
    lemma2_to64_rest();
    lemma_decimal_holds_no_separator(m, ':');
    lemma_one_field(decimal(m), ':');
    lemma_one_field(secs, ':');
    law_fields_of_joined(decimal(m), secs, ':');
    assert(fields(text, ':') =~= seq![decimal(m), secs]);
    law_written_number_reads_back(m, u64::MAX as nat);
    lemma_product_of_wholes(m, 60);
    assert(m * 60 == 60 * m);
    lemma_rounds_once(60 * m, x);
}

/// Adding a number that is not negative to a whole one rounds once.
proof fn lemma_rounds_once(n: nat, x: Double)
    requires
        n < pow2(53),
        x.spec_is_finite(),
        x.value() >= 0,
    ensures
        ({
            let exact = n * unit() + x.value();
            let t = sum(of_whole(n), x).value();
            &&& pow2(53) * (t - exact) <= exact
            &&& pow2(53) * (exact - t) <= exact
        }),
{
    let u = unit();
    lemma2_to64();
    lemma2_to64_rest();
    lemma_pow2_pos(1074);
    law_whole_is_exact(n);
    lemma_pow2_adds(53, 1074);
    lemma_pow2_unfold(1128);
    lemma_pow2_strictly_increases(1128, 2045);
    assert(n * u <= pow2(53) * u && n * u >= 0) by (nonlinear_arith)
        requires
            0 <= n <= pow2(53),
    ;
    lemma_small_summand(of_whole(n), x);
    law_sum_is_near(of_whole(n), x);
    let exact = n * u + x.value();
    let t = sum(of_whole(n), x).value();
    assert(pow2(53) * -(t - exact) == pow2(53) * (exact - t));
}

/// A range that is written as two points in time with a hyphen between them goes from the one to the
/// other, if the one comes before the other, and is refused if not.
pub proof fn law_range_reads_back(a: Seq<char>, b: Seq<char>, start: Double, end: Double)
    requires
        !a.contains('-'),
        time_of(a) == Ok::<Double, TimeError>(start),
        time_of(b) == Ok::<Double, TimeError>(end),
    ensures
        ({
            let r = range_of(a.push('-') + b);
            &&& start.value() < end.value() ==> r == Ok::<(Double, Double), RangeError>(
                (start, end),
            )
            &&& start.value() >= end.value() ==> r == Err::<(Double, Double), RangeError>(
                RangeError::Order { start, end },
            )
        }),
{
    law_cut_of_joined(a, b, '-');
    law_time_is_finite_amount(a);
    law_time_is_finite_amount(b);
}

/// An end alone is a range from zero.
pub proof fn law_end_alone_reads_back(b: Seq<char>, end: Double)
    requires
        !b.contains('-'),
        b.len() > 0,
        time_of(b) == Ok::<Double, TimeError>(end),
        end.value() > 0,
    ensures
        match range_of(b) {
            Ok((from, to)) => from.value() == 0 && to == end,
            Err(_) => false,
        },
        capture_range_of(b) == Ok::<Seq<char>, RangeError>(b),
{
    law_cut_at_first(b, '-');
    law_time_is_finite_amount(b);
    lemma_zero_value();
    assert(!end.at_most(Double { bits: 0 }));
    assert(ordered(Double { bits: 0 }, end) == Ok::<(Double, Double), RangeError>(
        (Double { bits: 0 }, end),
    ));
    assert(cut(b, '-') is None) by {
        if let Some((before, after)) = cut(b, '-') {
            assert(b[before.len() as int] == '-');
            assert(b.contains('-'));
        }
    }
}

proof fn lemma_zero_value()
    ensures
        (Double { bits: 0 }).value() == 0,
{
}

/// A point in time that cannot be read is told why: it has too many parts, one of them is empty, or
/// the first of the hours, the minutes and the seconds that is not a number, or is not a span of time.
pub proof fn law_bad_time_is_told(parts: Seq<Seq<char>>, secs: Option<Double>)
    requires
        parts.len() >= 1,
    ensures
        ({
            let whole = |i: int| unsigned(parts[i], u64::MAX as nat) is Some;
            let n = parts.len();
            let filled = forall|i: int| 0 <= i < n ==> (#[trigger] parts[i]).len() > 0;
            let good = secs matches Some(s) && s.spec_is_finite() && s.value() >= 0;
            match point_of(parts, secs) {
                Ok(_) => n <= 3 && filled && good && (n >= 2 ==> whole(0)) && (n == 3 ==> whole(1)),
                Err(TimeError::TooManyParts) => n > 3,
                Err(TimeError::EmptyPart) => n <= 3 && !filled,
                Err(TimeError::BadHours) => n == 3 && filled && !whole(0),
                Err(TimeError::BadMinutes) => filled && (n == 2 && !whole(0) || n == 3 && whole(0)
                    && !whole(1)),
                Err(TimeError::BadSeconds) => n <= 3 && filled && secs is None,
                Err(TimeError::SecondsOutOfRange) => n <= 3 && filled && secs is Some && !good,
            }
        }),
{
}

/// Of a range, a start that cannot be read is told before the end is looked at.
pub proof fn law_bad_range_is_told(a: Seq<char>, b: Seq<char>)
    requires
        !a.contains('-'),
    ensures
        time_of(a) matches Err(e) ==> range_of(a.push('-') + b) == Err::<
            (Double, Double),
            RangeError,
        >(RangeError::Start(e)),
        time_of(a) is Ok ==> (time_of(b) matches Err(e) ==> range_of(a.push('-') + b) == Err::<
            (Double, Double),
            RangeError,
        >(RangeError::End(e))),
        capture_range_of(a.push('-') + b) == Err::<Seq<char>, RangeError>(
            RangeError::StartNotAllowed,
        ),
{
    law_cut_of_joined(a, b, '-');
    let s = a.push('-') + b;
    assert(s[a.len() as int] == '-');
}

} // verus!
