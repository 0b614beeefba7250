//! Cutting audio to go with a video.

use crate::arith::{
    law_scaling_is_near, law_truncation_is_floor, negated, of_signed, of_whole, product, quotient,
    size, sum,
};
use crate::decoder::{ticks_to_secs, Rational};
use crate::double::{lesser, truncated, unit, Double, INFINITY_BITS};
use vstd::arithmetic::power2::*;
use vstd::prelude::*;

verus! {

/// The part of the audio that is kept, in seconds on its own timeline.
#[derive(Clone, Copy, Debug, PartialEq, Eq, Structural)]
pub struct AudioWindow {
    /// Where it starts; what starts there is heard at the start of the video.
    pub start: Double,
    /// Where it ends.
    pub end: Double,
}

/// Where a range starts; at zero if there is none.
pub open spec fn range_start(range: Option<(Double, Double)>) -> Double {
    match range {
        Some((start, end)) => start,
        None => Double { bits: 0 },
    }
}

/// The part of the audio that is kept when it is cut to `audio_range` first, put at the start of the
/// video, and cut with the video to `video_range`.
pub open spec fn window_of(
    audio_range: Option<(Double, Double)>,
    video_range: Option<(Double, Double)>,
) -> AudioWindow {
    AudioWindow {
        start: sum(range_start(audio_range), range_start(video_range)),
        end: match (audio_range, video_range) {
            (Some((a, b)), Some((c, d))) => lesser(b, sum(a, d)),
            (Some((a, b)), None) => b,
            (None, Some((c, d))) => d,
            (None, None) => Double { bits: INFINITY_BITS },
        },
    }
}

/// What becomes of a packet of audio.
#[derive(Clone, Copy, Debug, PartialEq, Eq, Structural)]
pub enum PacketFate {
    Drop,
    /// It is kept, with these time stamps.
    Keep { pts: i64, dts: Option<i64> },
}

/// A packet at a given time, in seconds, is kept.
pub open spec fn is_kept(w: AudioWindow, ts: Double) -> bool {
    !ts.below(w.start) && !w.end.at_most(ts)
}

/// The whole number that `d` truncates to, towards zero, cut off at the bounds of `i64`; zero for a
/// NaN.
pub open spec fn whole_part(d: Double) -> int {
    if d.below(Double { bits: 0 }) {
        let n = truncated(negated(d));
        if n > i64::MAX {
            i64::MIN as int
        } else {
            -n
        }
    } else {
        let n = truncated(d);
        if n > i64::MAX {
            i64::MAX as int
        } else {
            n
        }
    }
}

/// By how many units of a time base the audio is brought forward.
pub open spec fn shift_of(w: AudioWindow, base: Rational) -> int {
    whole_part(
        quotient(
            product(w.start, of_signed(base.denominator as int)),
            of_signed(base.numerator as int),
        ),
    )
}

/// The time stamps of a packet can be brought forward.
pub open spec fn can_shift(w: AudioWindow, base: Rational, pts: i64, dts: Option<i64>) -> bool {
    &&& i64::MIN <= pts - shift_of(w, base) <= i64::MAX
    &&& dts is Some ==> i64::MIN <= dts->0 - shift_of(w, base) <= i64::MAX
}

/// What becomes of a packet with given time stamps; one without a time of presentation is dropped.
pub open spec fn fate_of(
    w: AudioWindow,
    base: Rational,
    pts: Option<i64>,
    dts: Option<i64>,
) -> PacketFate {
    match pts {
        None => PacketFate::Drop,
        Some(p) => if is_kept(w, ticks_to_secs(p as int, base)) {
            PacketFate::Keep {
                pts: (p - shift_of(w, base)) as i64,
                dts: match dts {
                    Some(d) => Some((d - shift_of(w, base)) as i64),
                    None => None,
                },
            }
        } else {
            PacketFate::Drop
        },
    }
}

impl AudioWindow {
    /// Works out which part of the audio is kept.
    pub fn new(
        audio_range: Option<(Double, Double)>,
        video_range: Option<(Double, Double)>,
    ) -> (w: AudioWindow)
        ensures
            w == window_of(audio_range, video_range),
    {
        let audio_start = match audio_range {
            Some((start, _)) => start,
            None => Double::zero(),
        };
        let video_start = match video_range {
            Some((start, _)) => start,
            None => Double::zero(),
        };
        let end = match (audio_range, video_range) {
            (Some((a, b)), Some((_, d))) => b.min(a.plus(d)),
            (Some((_, b)), None) => b,
            (None, Some((_, d))) => d,
            (None, None) => Double::infinity(),
        };
        AudioWindow { start: audio_start.plus(video_start), end }
    }

    /// By how many units of a time base the audio is brought forward.
    pub fn shift_units(&self, base: Rational) -> (n: i64)
        ensures
            n == shift_of(*self, base),
    {
        let units = self.start.times(Double::from_i64(base.denominator as i64)).over(
            Double::from_i64(base.numerator as i64),
        );
        if units.lt(Double::zero()) {
            let n: u64 = units.negate().to_u64_saturating();
            if n > 0x7fff_ffff_ffff_ffff {
                i64::MIN
            } else {
                -(n as i64)
            }
        } else {
            let n: u64 = units.to_u64_saturating();
            if n > 0x7fff_ffff_ffff_ffff {
                i64::MAX
            } else {
                n as i64
            }
        }
    }

    /// Decides what becomes of a packet with given time stamps; `None` if they cannot be brought
    /// forward.
    pub fn retime(&self, base: Rational, pts: Option<i64>, dts: Option<i64>) -> (fate: Option<
        PacketFate,
    >)
        ensures
            match fate {
                Some(f) => f == fate_of(*self, base, pts, dts),
                None => pts is Some && is_kept(*self, ticks_to_secs(pts->0 as int, base))
                    && !can_shift(*self, base, pts->0, dts),
            },
    {
        let p: i64 = match pts {
            Some(p) => p,
            None => {
                return Some(PacketFate::Drop);
            },
        };
        let ts = Double::from_i64(p).times(Double::from_i64(base.numerator as i64)).over(
            Double::from_i64(base.denominator as i64),
        );
        if ts.lt(self.start) || self.end.le(ts) {
            return Some(PacketFate::Drop);
        }
        let shift: i64 = self.shift_units(base);
        let pts: i64 = match p.checked_sub(shift) {
            Some(p) => p,
            None => {
                return None;
            },
        };
        let dts: Option<i64> = match dts {
            Some(d) => match d.checked_sub(shift) {
                Some(d) => Some(d),
                None => {
                    return None;
                },
            },
            None => None,
        };
        Some(PacketFate::Keep { pts, dts })
    }
}

/// A time lies in a range; in every one if there is none.
pub open spec fn in_range(t: int, range: Option<(Double, Double)>) -> bool {
    match range {
        Some((start, end)) => start.value() <= t < end.value(),
        None => true,
    }
}

/// A range of numbers that are not negative.
pub open spec fn is_proper(range: Option<(Double, Double)>) -> bool {
    match range {
        Some((start, end)) => {
            &&& !start.spec_is_nan()
            &&& !end.spec_is_nan()
            &&& start.value() >= 0
        },
        None => true,
    }
}

/// Adding the start of the range of the audio to the range of the video loses nothing.
pub open spec fn adds_exactly(
    audio_range: Option<(Double, Double)>,
    video_range: Option<(Double, Double)>,
) -> bool {
    let a = range_start(audio_range);
    let c = range_start(video_range);
    &&& !sum(a, c).spec_is_nan()
    &&& sum(a, c).value() == a.value() + c.value()
    &&& match (audio_range, video_range) {
        (Some((a, b)), Some((c, d))) => !sum(a, d).spec_is_nan() && sum(a, d).value() == a.value()
            + d.value(),
        _ => true,
    }
}

/// What is kept of the audio is what is left when it is cut in two steps: first to its own range,
/// and then, counted from the start of that, to the range of the video.
pub proof fn law_window_is_two_cuts(
    audio_range: Option<(Double, Double)>,
    video_range: Option<(Double, Double)>,
    ts: Double,
)
    requires
        is_proper(audio_range),
        is_proper(video_range),
        adds_exactly(audio_range, video_range),
        ts.spec_is_finite(),
        ts.value() >= 0,
    ensures
        is_kept(window_of(audio_range, video_range), ts) <==> in_range(ts.value(), audio_range)
            && in_range(ts.value() - range_start(audio_range).value(), video_range),
{
    crate::double::lemma_magnitudes_ordered(ts.magnitude(), INFINITY_BITS as nat);
}

/// The place of an audio stream among the streams of the output, which come after the video streams
/// in the order in which they are found.
pub open spec fn is_output_index(
    audio: Seq<usize>,
    video_count: int,
    stream: usize,
    index: int,
) -> bool {
    &&& video_count <= index < video_count + audio.len()
    &&& audio[index - video_count] == stream
    &&& forall|i: int| 0 <= i < index - video_count ==> audio[i] != stream
}

/// Finds the place of an audio stream among the streams of the output.
pub fn output_index(audio: &Vec<usize>, video_count: usize, stream: usize) -> (index: Option<usize>)
    requires
        video_count + audio@.len() <= usize::MAX,
    ensures
        match index {
            Some(i) => is_output_index(audio@, video_count as int, stream, i as int),
            None => !audio@.contains(stream),
        },
{
    let mut i: usize = 0;
    while i < audio.len()
        invariant
            i <= audio@.len(),
            video_count + audio@.len() <= usize::MAX,
            forall|k: int| 0 <= k < i ==> audio@[k] != stream,
        decreases audio@.len() - i,
    {
        if audio[i] == stream {
            return Some(video_count + i);
        }
        i += 1;
    }
    None
}

/// The whole part of a number is the greatest in size that is not beyond it, and has its sign.
pub proof fn law_whole_part_is_towards_zero(d: Double)
    requires
        d.spec_is_finite(),
        size(d) <= i64::MAX * unit(),
    ensures
        d.value() >= 0 ==> whole_part(d) * unit() <= d.value() < (whole_part(d) + 1) * unit(),
        d.value() < 0 ==> (whole_part(d) - 1) * unit() < d.value() <= whole_part(d) * unit(),
{
    let u = unit() as int;
    lemma_pow2_pos(1074);
    if d.below(Double { bits: 0 }) {
        let e = negated(d);
        assert(e.magnitude() == d.magnitude() && !e.negative_sign());
        law_truncation_is_floor(e);
        let n = truncated(e);
        assert(n <= i64::MAX) by (nonlinear_arith)
            requires
                n * u <= i64::MAX * u,
                u > 0,
        ;
        assert((-n) * u == -(n * u) && (-n - 1) * u == -((n + 1) * u)) by (nonlinear_arith);
    } else {
        crate::double::lemma_magnitudes_ordered(0, 0);
        assert(d.value() >= 0);
        law_truncation_is_floor(d);
        let n = truncated(d);
        assert(n <= i64::MAX) by (nonlinear_arith)
            requires
                n * u <= i64::MAX * u,
                u > 0,
        ;
    }
}

/// The audio is brought forward by as many units of a time base as fit into the time at which the
/// window starts: so many, in seconds, are not above it, and one more would be, but for the rounding
/// of doubles.
pub proof fn law_shift_fits_the_start(w: AudioWindow, base: Rational)
    requires
        w.start.spec_is_finite(),
        w.start.value() == 0 || pow2(1000) <= w.start.value() <= pow2(1100),
        base.numerator > 0,
        base.denominator > 0,
    ensures
        ({
            let n = shift_of(w, base);
            let units = base.denominator * w.start.value();
            &&& pow2(53) * (n * base.numerator * unit()) <= (pow2(53) + 3) * units
            &&& (pow2(53) - 3) * units < pow2(53) * ((n + 1) * base.numerator * unit())
        }),
{
    let u = unit() as int;
    let t = pow2(53) as int;
    let a = base.denominator as int;
    let b = base.numerator as int;
    let x = w.start.value();
    let q = quotient(product(w.start, of_whole(a as nat)), of_whole(b as nat));
    lemma2_to64();
    lemma2_to64_rest();
    lemma_pow2_pos(1074);
    lemma_pow2_strictly_increases(1100, 1138);
    law_scaling_is_near(w.start, a as nat, b as nat);
    let v = q.value();
    lemma_pow2_adds(31, 1100);
    lemma_pow2_adds(62, 1074);
    lemma_pow2_strictly_increases(1133, 1136);
    lemma_pow2_adds(2, 1131);
    assert(a * x <= pow2(1131)) by (nonlinear_arith)
        requires
            0 < a <= 0x8000_0000,
            0 <= x <= pow2(1100),
            pow2(1131) == 0x8000_0000 * pow2(1100),
    ;
    assert(v <= 4 * pow2(1131)) by (nonlinear_arith)
        requires
            t * (b * v - a * x) <= 3 * (a * x),
            t >= 1,
            b >= 1,
            v >= 0,
            0 <= a * x <= pow2(1131),
    ;
    assert(pow2(62) * u <= i64::MAX * u) by (nonlinear_arith)
        requires
            pow2(62) <= i64::MAX,
            u > 0,
    ;
    law_whole_part_is_towards_zero(q);
    let n = shift_of(w, base);
    let y = a * x;
    assert(y >= 0) by (nonlinear_arith)
        requires
            y == a * x,
            a > 0,
            x >= 0,
    ;
    assert(n * b * u <= b * v && b * v < (n + 1) * b * u) by (nonlinear_arith)
        requires
            n * u <= v,
            v < (n + 1) * u,
            b > 0,
    ;
    assert(t * (n * b * u) <= (t + 3) * y) by (nonlinear_arith)
        requires
            n * b * u <= b * v,
            t * (b * v - y) <= 3 * y,
            t > 0,
    ;
    assert((t - 3) * y < t * ((n + 1) * b * u)) by (nonlinear_arith)
        requires
            b * v < (n + 1) * b * u,
            t * (y - b * v) <= 3 * y,
            t > 0,
    ;
}

/// A packet is kept exactly if it has a time of presentation that lies in the window; both of its
/// time stamps are brought forward by the same amount as those of every other packet.
pub proof fn law_packets_move_together(
    w: AudioWindow,
    base: Rational,
    pts: Option<i64>,
    dts: Option<i64>,
    other_pts: i64,
    other_dts: Option<i64>,
)
    requires
        !w.start.spec_is_nan(),
        !w.end.spec_is_nan(),
        pts is Some ==> !ticks_to_secs(pts->0 as int, base).spec_is_nan() && can_shift(
            w,
            base,
            pts->0,
            dts,
        ),
        can_shift(w, base, other_pts, other_dts),
    ensures
        match fate_of(w, base, pts, dts) {
            PacketFate::Drop => pts is None || {
                let secs = ticks_to_secs(pts->0 as int, base).value();
                secs < w.start.value() || secs >= w.end.value()
            },
            PacketFate::Keep { pts: new_pts, dts: new_dts } => {
                &&& pts is Some
                &&& w.start.value() <= ticks_to_secs(pts->0 as int, base).value() < w.end.value()
                &&& new_dts is Some <==> dts is Some
                &&& dts is Some ==> new_pts - new_dts->0 == pts->0 - dts->0
                &&& fate_of(w, base, Some(other_pts), other_dts) matches PacketFate::Keep {
                    pts: other,
                    dts: _,
                } ==> new_pts - other == pts->0 - other_pts
            },
        },
{
}

/// Every audio stream has its own place in the output, after those of the video.
pub proof fn law_streams_have_their_places(
    audio: Seq<usize>,
    video_count: int,
    first: usize,
    second: usize,
    i: int,
    j: int,
)
    requires
        is_output_index(audio, video_count, first, i),
        is_output_index(audio, video_count, second, j),
    ensures
        first == second <==> i == j,
        i >= video_count,
        j >= video_count,
        i < j ==> forall|k: int| 0 <= k <= i - video_count ==> audio[k] != second,
{
    if first == second {
        if i < j {
            assert(audio[i - video_count] != second);
        }
        if j < i {
            assert(audio[j - video_count] != first);
        }
    }
}

} // verus!
