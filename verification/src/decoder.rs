//! Reading a video frame by frame: which frames are shown, when, and how the video is extended.

use crate::arith::{
    difference, law_difference_with_itself, law_product_is_near, law_quotient_is_near,
    law_scaling_is_near, law_scaling_is_odd, law_sum_is_near, law_truncation_is_floor,
    law_whole_is_exact, lemma_rounds_below_power, negated, of_signed, of_whole, product, quotient,
    size, sum,
};
use crate::double::{greater, truncated, unit, Double, ONE_BITS};
use crate::single::{law_single_ratio_is_near, single, single_of_signed};
use crate::text::str_eq;
use vstd::arithmetic::power2::*;
use vstd::prelude::*;

verus! {

/// A quotient of two whole numbers.
#[derive(Clone, Copy, Debug, PartialEq, Eq, Structural)]
pub struct Rational {
    pub numerator: i32,
    pub denominator: i32,
}

/// What a container says of a video stream.
#[derive(Clone, Copy, Debug)]
pub struct StreamFacts {
    pub time_base: Rational,
    /// The least rate at which all frames can be shown.
    pub rate: Rational,
    /// The average rate.
    pub avg_frame_rate: Rational,
    /// How many frames there are; zero if that is not known.
    pub frames: i64,
    /// How long the stream is, in units of the time base; not positive if that is not known.
    pub duration: i64,
}

/// A rate in single precision; zero for one without a positive denominator.
pub open spec fn rate_of(r: Rational) -> Double {
    if r.denominator > 0 {
        single(
            quotient(
                single_of_signed(r.numerator as int),
                single_of_signed(r.denominator as int),
            ),
        )
    } else {
        Double { bits: 0 }
    }
}

pub open spec fn is_positive(d: Double) -> bool {
    (Double { bits: 0 }).below(d)
}

/// A number of units of a time base, in seconds.
pub open spec fn ticks_to_secs(ticks: int, base: Rational) -> Double {
    quotient(
        product(of_signed(ticks), of_signed(base.numerator as int)),
        of_signed(base.denominator as int),
    )
}

/// The frame rate of a stream, in single precision, from its number of frames and its length where
/// both are known; zero if its rate is not.
pub open spec fn measured_rate(f: StreamFacts) -> Double {
    let rate = rate_of(f.rate);
    let secs = ticks_to_secs(f.duration as int, f.time_base);
    if !is_positive(rate) {
        Double { bits: 0 }
    } else if f.frames > 0 && f.duration > 0 && is_positive(secs) {
        single(quotient(single_of_signed(f.frames as int), single(secs)))
    } else {
        rate
    }
}

/// The frame rate of a stream: the measured one, or else the average one, or else `fallback`.
pub open spec fn frame_rate_of(f: StreamFacts, fallback: Option<Double>) -> Double {
    let zero = Double { bits: 0 };
    let first = measured_rate(f);
    let second = if first.at_most(zero) && f.avg_frame_rate.denominator > 0 {
        rate_of(f.avg_frame_rate)
    } else {
        first
    };
    if second.at_most(zero) {
        match fallback {
            Some(rate) => rate,
            None => zero,
        }
    } else {
        second
    }
}

fn read_rate(r: Rational) -> (rate: Double)
    ensures
        rate == rate_of(r),
{
    if r.denominator > 0 {
        Double::single_from_i64(r.numerator as i64).over_single(
            Double::single_from_i64(r.denominator as i64),
        )
    } else {
        Double::zero()
    }
}

fn secs_from_ticks(ticks: i64, base: Rational) -> (secs: Double)
    ensures
        secs == ticks_to_secs(ticks as int, base),
{
    Double::from_i64(ticks).times(Double::from_i64(base.numerator as i64)).over(
        Double::from_i64(base.denominator as i64),
    )
}

/// Chooses the frame rate of a stream.
pub fn choose_frame_rate(f: &StreamFacts, fallback: Option<Double>) -> (rate: Double)
    ensures
        rate == frame_rate_of(*f, fallback),
{
    let zero = Double::zero();
    let rate = read_rate(f.rate);
    let mut chosen = if zero.lt(rate) {
        let secs = secs_from_ticks(f.duration, f.time_base);
        if f.frames > 0 && f.duration > 0 && zero.lt(secs) {
            Double::single_from_i64(f.frames).over_single(secs.to_single())
        } else {
            rate
        }
    } else {
        zero
    };
    if chosen.le(zero) && f.avg_frame_rate.denominator > 0 {
        chosen = read_rate(f.avg_frame_rate);
    }
    if chosen.le(zero) {
        match fallback {
            Some(rate) => rate,
            None => zero,
        }
    } else {
        chosen
    }
}

/// Reading a video: what is known of it, and how far it has come.
#[derive(Clone, Copy, Debug)]
pub struct VideoDecoder {
    pub width: u32,
    pub height: u32,
    pub frame_rate: Double,
    pub frame_count: u64,
    pub time_base: Rational,
    pub seekable: bool,
    /// Whether the first frame is shown at zero, whatever its time.
    pub normalize_start: bool,
    pub draining: bool,
    pub last_ts: Option<Double>,
    pub frame_interval: Double,
    pub extend_max_deadline: Option<Double>,
    pub extend_frame_duration: Double,
    pub real_frame_count: u64,
    pub extended_count: u64,
    pub total_reported: bool,
    pub range: Option<(Double, Double)>,
    pub seeked: bool,
    pub base_ts: Option<Double>,
}

/// What becomes of a frame that has been decoded.
#[derive(Clone, Copy, Debug, PartialEq, Eq, Structural)]
pub enum FrameFate {
    /// It comes before the range.
    Skip,
    /// It comes after the range.
    Stop,
    /// It is shown at this time, in seconds.
    Show(Double),
}

/// The time of a frame with a given presentation time stamp, on the timeline of the input.
pub open spec fn frame_time(d: VideoDecoder, pts: Option<i64>) -> Double {
    let raw = match pts {
        Some(pts) => ticks_to_secs(pts as int, d.time_base),
        None => Double { bits: 0 },
    };
    if d.normalize_start {
        difference(
            raw,
            match d.base_ts {
                Some(base) => base,
                None => raw,
            },
        )
    } else {
        raw
    }
}

/// The time that counts as zero once a frame with a given presentation time stamp has been seen.
pub open spec fn base_after(d: VideoDecoder, pts: Option<i64>) -> Option<Double> {
    if d.normalize_start && d.base_ts is None {
        Some(
            match pts {
                Some(pts) => ticks_to_secs(pts as int, d.time_base),
                None => Double { bits: 0 },
            },
        )
    } else {
        d.base_ts
    }
}

/// When a frame is shown that stands at a given time on the timeline of the input: times are counted
/// from the start of the range.
pub open spec fn shown_at(range: Option<(Double, Double)>, ts: Double) -> Double {
    match range {
        Some((start, end)) => difference(ts, start),
        None => ts,
    }
}

/// What becomes of a frame at a given time.
pub open spec fn fate_at(range: Option<(Double, Double)>, ts: Double) -> FrameFate {
    match range {
        Some((start, end)) => if ts.below(start) {
            FrameFate::Skip
        } else if end.at_most(ts) {
            FrameFate::Stop
        } else {
            FrameFate::Show(shown_at(range, ts))
        },
        None => FrameFate::Show(shown_at(range, ts)),
    }
}

/// The distance between the last two frames, once one at `ts` is shown; only one forward counts.
pub open spec fn interval_after(d: VideoDecoder, ts: Double) -> Double {
    match d.last_ts {
        Some(prev) => if is_positive(difference(ts, prev)) {
            difference(ts, prev)
        } else {
            d.frame_interval
        },
        None => d.frame_interval,
    }
}

/// The decoder after a frame with a given presentation time stamp.
pub open spec fn after_frame(d: VideoDecoder, pts: Option<i64>) -> VideoDecoder {
    let ts = frame_time(d, pts);
    let seen = VideoDecoder { base_ts: base_after(d, pts), ..d };
    match fate_at(d.range, ts) {
        FrameFate::Skip => seen,
        FrameFate::Stop => VideoDecoder { extend_max_deadline: None, total_reported: true, ..seen },
        FrameFate::Show(_) => VideoDecoder {
            frame_interval: interval_after(d, ts),
            last_ts: Some(ts),
            real_frame_count: (d.real_frame_count + 1) as u64,
            ..seen
        },
    }
}

/// Where a range that begins at `start` is jumped to, in microseconds.
pub open spec fn seek_micros(start: Double) -> int {
    let micros = truncated(product(start, of_whole(1_000_000)));
    if micros > i64::MAX {
        i64::MAX as int
    } else {
        micros
    }
}

/// The distance between two frames that are added at the end.
pub open spec fn step_of(d: VideoDecoder) -> Double {
    if is_positive(d.frame_interval) {
        d.frame_interval
    } else if is_positive(d.frame_rate) {
        quotient(Double { bits: ONE_BITS }, d.frame_rate)
    } else {
        d.extend_frame_duration
    }
}

/// The time short of which frames are added at the end.
pub open spec fn stop_of(d: VideoDecoder, deadline: Double) -> Double {
    sum(deadline, greater(step_of(d), d.extend_frame_duration))
}

/// `n` steps on from `from`.
pub open spec fn walked(from: Double, step: Double, n: nat) -> Double
    decreases n,
{
    if n == 0 {
        from
    } else {
        sum(walked(from, step, (n - 1) as nat), step)
    }
}

/// A frame can be added at a given time: one that comes short of `stop` and of the end of the range.
pub open spec fn is_added(t: Double, stop: Double, range: Option<(Double, Double)>) -> bool {
    t.below(stop) && match range {
        Some((start, end)) => !end.at_most(t),
        None => true,
    }
}

/// Decides whether a frame can be added at a given time.
fn can_add(t: Double, stop: Double, range: Option<(Double, Double)>) -> (added: bool)
    ensures
        added == is_added(t, stop, range),
{
    t.lt(stop) && match range {
        Some((_, end)) => !end.le(t),
        None => true,
    }
}

/// So many frames, and no more, can be added at `first` and in steps from there.
pub open spec fn is_step_count(
    first: Double,
    step: Double,
    stop: Double,
    range: Option<(Double, Double)>,
    n: nat,
) -> bool {
    &&& forall|i: nat| i < n ==> is_added(#[trigger] walked(first, step, i), stop, range)
    &&& !is_added(walked(first, step, n), stop, range)
}

/// A step leads from a frame that can be added to one that can, but no further on.
pub open spec fn is_stuck(
    first: Double,
    step: Double,
    stop: Double,
    range: Option<(Double, Double)>,
    i: nat,
) -> bool {
    &&& is_added(walked(first, step, i), stop, range)
    &&& is_added(walked(first, step, i + 1), stop, range)
    &&& !walked(first, step, i).below(walked(first, step, i + 1))
}

/// A step from frame to frame leads nowhere, or there are more frames than can be counted.
pub open spec fn is_endless(
    first: Double,
    step: Double,
    stop: Double,
    range: Option<(Double, Double)>,
) -> bool {
    ||| exists|i: nat| #[trigger] is_stuck(first, step, stop, range, i)
    ||| forall|i: nat| i <= u64::MAX ==> is_added(#[trigger] walked(first, step, i), stop, range)
}

/// Counts the frames that can be added at `first` and in steps from there; `None` if there is no end
/// of them.
pub fn count_steps(
    first: Double,
    step: Double,
    stop: Double,
    range: Option<(Double, Double)>,
) -> (n: Option<u64>)
    ensures
        match n {
            Some(n) => is_step_count(first, step, stop, range, n as nat),
            None => is_endless(first, step, stop, range),
        },
{
    let mut ts = first;
    let mut n: u64 = 0;
    while can_add(ts, stop, range)
        invariant
            ts == walked(first, step, n as nat),
            forall|i: nat| i < n ==> is_added(#[trigger] walked(first, step, i), stop, range),
        decreases
            (if is_added(ts, stop, range) {
                1int
            } else {
                0int
            }),
            stop.value() - ts.value(),
    {
        if n == u64::MAX {
            return None;
        }
        let next = ts.plus(step);
        assert(next == walked(first, step, (n + 1) as nat));
        if can_add(next, stop, range) && !ts.lt(next) {
            assert(is_stuck(first, step, stop, range, n as nat));
            return None;
        }
        ts = next;
        n += 1;
    }
    Some(n)
}

/// What comes at the end of the input.
#[derive(Clone, Copy, Debug, PartialEq, Eq, Structural)]
pub struct Ending {
    /// When one more frame is shown, which is black, in seconds.
    pub black_frame: Option<Double>,
    /// The number of all frames, if it is told now for the first time.
    pub total: Option<u64>,
}

/// Where a video starts of which nothing has been shown yet.
pub open spec fn origin_of(range: Option<(Double, Double)>) -> Double {
    match range {
        Some((start, end)) => start,
        None => Double { bits: 0 },
    }
}

/// The time of the next frame that can be added at the end, on the timeline of the input.
pub open spec fn first_black(d: VideoDecoder) -> Double {
    match d.last_ts {
        Some(t) => sum(t, step_of(d)),
        None => origin_of(d.range),
    }
}

/// The time of the next frame that is added at the end, if one is, on the timeline of the input.
pub open spec fn next_black(d: VideoDecoder) -> Option<Double> {
    match d.extend_max_deadline {
        Some(deadline) if is_added(first_black(d), stop_of(d, deadline), d.range) => Some(
            first_black(d),
        ),
        _ => None,
    }
}

/// The decoder after it has come to the end of the input.
pub open spec fn after_end(d: VideoDecoder) -> VideoDecoder {
    match next_black(d) {
        Some(t) => VideoDecoder {
            total_reported: true,
            last_ts: Some(t),
            extended_count: (d.extended_count + 1) as u64,
            ..d
        },
        None => VideoDecoder { total_reported: true, ..d },
    }
}

/// The decoder after it has come to the end of the input `n` times.
pub open spec fn after_ends(d: VideoDecoder, n: nat) -> VideoDecoder
    decreases n,
{
    if n == 0 {
        d
    } else {
        after_end(after_ends(d, (n - 1) as nat))
    }
}

/// `n` frames, and no more, are added at the end.
pub open spec fn is_added_count(d: VideoDecoder, n: nat) -> bool {
    match d.extend_max_deadline {
        None => n == 0,
        Some(deadline) => is_step_count(
            first_black(d),
            step_of(d),
            stop_of(d, deadline),
            d.range,
            n,
        ),
    }
}

/// `n` is the number of all frames, those included that are added at the end.
pub open spec fn is_total(d: VideoDecoder, n: int) -> bool {
    n >= d.real_frame_count && is_added_count(d, (n - d.real_frame_count) as nat)
}

/// There is no end of the frames that are added, or no number for all frames.
pub open spec fn is_uncountable(d: VideoDecoder) -> bool {
    ||| d.extend_max_deadline is Some && is_endless(
        first_black(d),
        step_of(d),
        stop_of(d, d.extend_max_deadline->0),
        d.range,
    )
    ||| exists|n: int| n > u64::MAX && #[trigger] is_total(d, n)
}

impl VideoDecoder {
    /// A decoder at the start of a video of the given size, frame rate and length in frames.
    pub fn new(
        width: u32,
        height: u32,
        frame_rate: Double,
        frames: i64,
        time_base: Rational,
        seekable: bool,
        normalize_start: bool,
    ) -> (d: Option<VideoDecoder>)
        ensures
            d is None <==> width == 0 || height == 0,
            d is Some ==> d->0 == (VideoDecoder {
                width,
                height,
                frame_rate,
                frame_count: if frames > 0 {
                    frames as u64
                } else {
                    0
                },
                time_base,
                seekable,
                normalize_start,
                draining: false,
                last_ts: None,
                frame_interval: Double { bits: 0 },
                extend_max_deadline: None,
                extend_frame_duration: Double { bits: 0 },
                real_frame_count: 0,
                extended_count: 0,
                total_reported: false,
                range: None,
                seeked: false,
                base_ts: None,
            }),
    {
        if width == 0 || height == 0 {
            return None;
        }
        Some(
            VideoDecoder {
                width,
                height,
                frame_rate,
                frame_count: if frames > 0 {
                    frames as u64
                } else {
                    0
                },
                time_base,
                seekable,
                normalize_start,
                draining: false,
                last_ts: None,
                frame_interval: Double::zero(),
                extend_max_deadline: None,
                extend_frame_duration: Double::zero(),
                real_frame_count: 0,
                extended_count: 0,
                total_reported: false,
                range: None,
                seeked: false,
                base_ts: None,
            },
        )
    }

    /// The width and the height.
    pub fn size(&self) -> (s: (u32, u32))
        ensures
            s == (self.width, self.height),
    {
        (self.width, self.height)
    }

    /// The frame rate, in single precision.
    pub fn frame_rate(&self) -> (rate: Double)
        ensures
            rate == self.frame_rate,
    {
        self.frame_rate
    }

    /// How many frames the container says there are; zero if it does not say.
    pub fn frame_count(&self) -> (n: u64)
        ensures
            n == self.frame_count,
    {
        self.frame_count
    }

    /// Extends the video with black frames up to a given time.
    pub fn set_extend_to(&mut self, max_deadline_secs: Double, frame_duration_secs: Double)
        ensures
            *final(self) == (VideoDecoder {
                extend_max_deadline: Some(max_deadline_secs),
                extend_frame_duration: frame_duration_secs,
                ..*old(self)
            }),
    {
        self.extend_max_deadline = Some(max_deadline_secs);
        self.extend_frame_duration = frame_duration_secs;
    }

    /// Shows only the frames from `start` on and before `end`, counted from `start`.
    pub fn set_range(&mut self, start: Double, end: Double)
        requires
            start.below(end),
        ensures
            *final(self) == (VideoDecoder { range: Some((start, end)), ..*old(self) }),
    {
        self.range = Some((start, end));
    }

    /// Called before a frame is read: where to jump to first, in microseconds, if anywhere. Where
    /// the input cannot be jumped in, the frames before the range are skipped one by one.
    pub fn begin_read(&mut self) -> (target: Option<i64>)
        ensures
            ({
                let first = old(self).range is Some && !old(self).seeked;
                let (start, end) = old(self).range->0;
                &&& target == if first && is_positive(start) && old(self).seekable {
                    Some(seek_micros(start) as i64)
                } else {
                    None
                }
                &&& *final(self) == if first {
                    VideoDecoder { draining: false, last_ts: None, seeked: true, ..*old(self) }
                } else {
                    *old(self)
                }
            }),
    {
        if self.seeked {
            return None;
        }
        let (start, _) = match self.range {
            Some(range) => range,
            None => {
                return None;
            },
        };
        self.draining = false;
        self.last_ts = None;
        self.seeked = true;
        if Double::zero().lt(start) && self.seekable {
            let micros: u64 = start.times(Double::from_u64(1_000_000)).to_u64_saturating();
            if micros > 0x7fff_ffff_ffff_ffff {
                Some(i64::MAX)
            } else {
                Some(micros as i64)
            }
        } else {
            None
        }
    }

    /// Called when a frame has been decoded: what becomes of it, and the number of all frames if it
    /// is told now for the first time.
    pub fn on_frame(&mut self, pts: Option<i64>) -> (r: (FrameFate, Option<u64>))
        requires
            old(self).real_frame_count < u64::MAX,
        ensures
            r.0 == fate_at(old(self).range, frame_time(*old(self), pts)),
            r.1 == if r.0 is Stop && !old(self).total_reported {
                Some(old(self).real_frame_count)
            } else {
                None
            },
            *final(self) == after_frame(*old(self), pts),
    {
        let raw = match pts {
            Some(pts) => secs_from_ticks(pts, self.time_base),
            None => Double::zero(),
        };
        let ts = if self.normalize_start {
            let base = match self.base_ts {
                Some(base) => base,
                None => raw,
            };
            self.base_ts = Some(base);
            raw.minus(base)
        } else {
            raw
        };
        let shown = match self.range {
            Some((start, end)) => {
                if ts.lt(start) {
                    return (FrameFate::Skip, None);
                }
                if end.le(ts) {
                    let total = if self.total_reported {
                        None
                    } else {
                        Some(self.real_frame_count)
                    };
                    self.extend_max_deadline = None;
                    self.total_reported = true;
                    return (FrameFate::Stop, total);
                }
                ts.minus(start)
            },
            None => ts,
        };
        if let Some(prev) = self.last_ts {
            let interval = ts.minus(prev);
            if Double::zero().lt(interval) {
                self.frame_interval = interval;
            }
        }
        self.last_ts = Some(ts);
        self.real_frame_count += 1;
        (FrameFate::Show(shown), None)
    }

    /// Called when the decoder asks for more input: whether it is to be given a packet. It has none
    /// to be given once the input has ended.
    pub fn on_again(&self) -> (more: bool)
        ensures
            more == !self.draining,
    {
        !self.draining
    }

    /// Called when the input has no more packets.
    pub fn on_input_end(&mut self)
        ensures
            *final(self) == (VideoDecoder { draining: true, ..*old(self) }),
    {
        self.draining = true;
    }

    fn extension_step(&self) -> (step: Double)
        ensures
            step == step_of(*self),
    {
        if Double::zero().lt(self.frame_interval) {
            self.frame_interval
        } else if Double::zero().lt(self.frame_rate) {
            Double::one().over(self.frame_rate)
        } else {
            self.extend_frame_duration
        }
    }

    /// The time of the next frame that can be added at the end.
    fn next_time(&self) -> (t: Double)
        ensures
            t == first_black(*self),
    {
        match self.last_ts {
            Some(t) => t.plus(self.extension_step()),
            None => match self.range {
                Some((start, _)) => start,
                None => Double::zero(),
            },
        }
    }

    /// The number of all frames, those included that are added at the end; `None` if there is no end
    /// of them.
    fn count_total(&self) -> (total: Option<u64>)
        ensures
            match total {
                Some(n) => is_total(*self, n as int),
                None => is_uncountable(*self),
            },
    {
        let deadline = match self.extend_max_deadline {
            Some(deadline) => deadline,
            None => {
                return Some(self.real_frame_count);
            },
        };
        let step = self.extension_step();
        let stop = deadline.plus(step.max(self.extend_frame_duration));
        match count_steps(self.next_time(), step, stop, self.range) {
            Some(n) => {
                assert(is_total(*self, self.real_frame_count + n));
                self.real_frame_count.checked_add(n)
            },
            None => None,
        }
    }

    /// Called when the input is used up: whether a black frame is added, and the number of all
    /// frames if it is told now for the first time.
    pub fn on_end(&mut self) -> (ending: Ending)
        requires
            old(self).extended_count < u64::MAX,
        ensures
            ending.black_frame == match next_black(*old(self)) {
                Some(t) => Some(shown_at(old(self).range, t)),
                None => None,
            },
            ending.total is Some ==> !old(self).total_reported && is_total(
                *old(self),
                ending.total->0 as int,
            ),
            ending.total is None ==> old(self).total_reported || is_uncountable(*old(self)),
            *final(self) == after_end(*old(self)),
    {
        let total = if self.total_reported {
            None
        } else {
            self.count_total()
        };
        self.total_reported = true;
        let deadline = match self.extend_max_deadline {
            Some(deadline) => deadline,
            None => {
                return Ending { black_frame: None, total };
            },
        };
        let step = self.extension_step();
        let stop = deadline.plus(step.max(self.extend_frame_duration));
        let next = self.next_time();
        if !can_add(next, stop, self.range) {
            return Ending { black_frame: None, total };
        }
        let shown = match self.range {
            Some((start, _)) => next.minus(start),
            None => next,
        };
        self.last_ts = Some(next);
        self.extended_count += 1;
        Ending { black_frame: Some(shown), total }
    }
}

/// A frame that is shown lies within the range.
pub proof fn law_shown_frames_in_range(d: VideoDecoder, pts: Option<i64>)
    requires
        d.range is Some,
        fate_at(d.range, frame_time(d, pts)) is Show,
    ensures
        ({
            let (start, end) = d.range->0;
            let ts = frame_time(d, pts);
            !ts.below(start) && !end.at_most(ts)
        }),
{
}

/// A frame that is added at the end comes before the end of the range.
pub proof fn law_added_frames_in_range(d: VideoDecoder)
    requires
        d.range is Some,
        next_black(d) is Some,
    ensures
        ({
            let (start, end) = d.range->0;
            !end.at_most(next_black(d)->0)
        }),
{
}

/// What stands at the start of the range is shown at zero.
pub proof fn law_range_starts_at_zero(start: Double, end: Double)
    requires
        start.spec_is_finite(),
    ensures
        shown_at(Some((start, end)), start) == (Double { bits: 0 }),
        shown_at(Some((start, end)), origin_of(Some((start, end)))) == (Double { bits: 0 }),
{
    law_difference_with_itself(start);
}

/// The first frame of a live input is shown at zero.
pub proof fn law_live_input_starts_at_zero(d: VideoDecoder, pts: i64)
    requires
        d.normalize_start,
        d.base_ts is None,
        ticks_to_secs(pts as int, d.time_base).spec_is_finite(),
    ensures
        frame_time(d, Some(pts)) == (Double { bits: 0 }),
{
    law_difference_with_itself(ticks_to_secs(pts as int, d.time_base));
}

/// What is known of the start of a range.
#[derive(Clone, Copy, Debug, PartialEq, Eq, Structural)]
pub enum RangeStart {
    /// It lies within the video, or there is no range.
    Within,
    /// It lies beyond the end of the video, which is this long, in seconds.
    Beyond(Double),
    /// The length of the video is not known.
    Unknown,
}

/// What is known of the start of a range of a video.
pub open spec fn start_of(
    range: Option<(Double, Double)>,
    frame_count: u64,
    frame_rate: Double,
) -> RangeStart {
    match range {
        None => RangeStart::Within,
        Some((start, end)) => if frame_count > 0 && is_positive(frame_rate) {
            let length = quotient(of_whole(frame_count as nat), frame_rate);
            if length.at_most(start) {
                RangeStart::Beyond(length)
            } else {
                RangeStart::Within
            }
        } else {
            RangeStart::Unknown
        },
    }
}

impl VideoDecoder {
    /// Checks the start of a range against the length of the video.
    pub fn check_start(&self, range: Option<(Double, Double)>) -> (r: RangeStart)
        ensures
            r == start_of(range, self.frame_count, self.frame_rate),
    {
        match range {
            None => RangeStart::Within,
            Some((start, _)) => if self.frame_count > 0 && Double::zero().lt(self.frame_rate) {
                let length = Double::from_u64(self.frame_count).over(self.frame_rate);
                if length.le(start) {
                    RangeStart::Beyond(length)
                } else {
                    RangeStart::Within
                }
            } else {
                RangeStart::Unknown
            },
        }
    }
}

/// How the devices of a capture format are listed.
#[derive(Clone, Copy, Debug, PartialEq, Eq, Structural)]
pub enum DeviceListing {
    /// Not at all: a screen is captured by its URL.
    ScreenHint,
    /// Not at all: another tool lists them.
    V4l2Hint,
    /// By opening the format with an empty URL.
    ProbeEmpty,
    /// By opening the format with a URL that stands for nothing.
    ProbeDummy,
}

/// How the devices of a capture format are listed, if it is known.
pub open spec fn listing_of(format: Seq<char>) -> Option<DeviceListing> {
    if format == "gdigrab"@ || format == "x11grab"@ {
        Some(DeviceListing::ScreenHint)
    } else if format == "v4l2"@ {
        Some(DeviceListing::V4l2Hint)
    } else if format == "dshow"@ {
        Some(DeviceListing::ProbeDummy)
    } else if format == "avfoundation"@ {
        Some(DeviceListing::ProbeEmpty)
    } else {
        None
    }
}

/// Decides how the devices of a capture format are listed; `None` if it is not known.
pub fn plan_listing(format: &str) -> (listing: Option<DeviceListing>)
    ensures
        listing == listing_of(format@),
{
    if str_eq(format, "gdigrab") || str_eq(format, "x11grab") {
        Some(DeviceListing::ScreenHint)
    } else if str_eq(format, "v4l2") {
        Some(DeviceListing::V4l2Hint)
    } else if str_eq(format, "dshow") {
        Some(DeviceListing::ProbeDummy)
    } else if str_eq(format, "avfoundation") {
        Some(DeviceListing::ProbeEmpty)
    } else {
        None
    }
}

/// What the frames that are added depend on stays as it is at the end of the input, but for the time
/// of the last frame.
proof fn lemma_end_keeps_steps(d: VideoDecoder, n: nat, i: nat)
    requires
        is_added_count(d, n),
        i <= n,
    ensures
        ({
            let here = after_ends(d, i);
            &&& here.extend_max_deadline == d.extend_max_deadline
            &&& here.extend_frame_duration == d.extend_frame_duration
            &&& here.frame_interval == d.frame_interval
            &&& here.frame_rate == d.frame_rate
            &&& here.range == d.range
            &&& first_black(here) == walked(first_black(d), step_of(d), i)
        }),
    decreases i,
{
    if i > 0 {
        let before = (i - 1) as nat;
        lemma_end_keeps_steps(d, n, before);
        assert(is_added(
            walked(first_black(d), step_of(d), before),
            stop_of(d, d.extend_max_deadline->0),
            d.range,
        ));
    }
}

/// As many frames are added at the end, one after the other, as the number of all frames counts, each
/// a step on from the one before; then no more are.
pub proof fn law_total_counts_added_frames(d: VideoDecoder, total: int, i: nat)
    requires
        is_total(d, total),
    ensures
        next_black(after_ends(d, i)) == if i < total - d.real_frame_count {
            Some(walked(first_black(d), step_of(d), i))
        } else {
            None
        },
    decreases i,
{
    let n = (total - d.real_frame_count) as nat;
    if i <= n {
        lemma_end_keeps_steps(d, n, i);
    } else {
        let before = after_ends(d, (i - 1) as nat);
        law_total_counts_added_frames(d, total, (i - 1) as nat);
        assert(first_black(after_end(before)) == first_black(before));
    }
}

/// No frame is missing at the end: when no more are added, the last one stands at the deadline or
/// beyond it, where the times add up without rounding.
pub proof fn law_extension_reaches_deadline(d: VideoDecoder, t: Double, deadline: Double)
    requires
        d.last_ts == Some(t),
        d.range is None,
        d.extend_max_deadline == Some(deadline),
        next_black(d) is None,
        !step_of(d).spec_is_nan(),
        !d.extend_frame_duration.spec_is_nan(),
        !sum(t, step_of(d)).spec_is_nan(),
        !stop_of(d, deadline).spec_is_nan(),
        sum(t, step_of(d)).value() == t.value() + step_of(d).value(),
        stop_of(d, deadline).value() == deadline.value() + greater(
            step_of(d),
            d.extend_frame_duration,
        ).value(),
    ensures
        t.value() >= deadline.value(),
{
}

/// A number of units of a time base is so many times the numerator over the denominator, to within
/// three times the precision of a double.
pub proof fn law_ticks_are_seconds(ticks: int, base: Rational)
    requires
        -pow2(53) < ticks < pow2(53),
        base.numerator > 0,
        base.denominator > 0,
    ensures
        ({
            let secs = ticks_to_secs(ticks, base);
            let exact = base.numerator * (ticks * unit());
            let off = base.denominator * secs.value() - exact;
            let most = if ticks < 0 {
                3 * -exact
            } else {
                3 * exact
            };
            &&& secs.spec_is_finite()
            &&& pow2(53) * off <= most
            &&& pow2(53) * -off <= most
        }),
{
    let u = unit() as int;
    let a = base.numerator as int;
    let b = base.denominator as int;
    let t = pow2(53) as int;
    let n = if ticks < 0 {
        -ticks
    } else {
        ticks
    };
    let x = of_whole(n as nat);
    lemma2_to64();
    lemma2_to64_rest();
    lemma_pow2_pos(1074);
    law_whole_is_exact(n as nat);
    lemma_pow2_adds(53, 1074);
    lemma_pow2_strictly_increases(1000, 1074);
    lemma_pow2_strictly_increases(1127, 1138);
    if n > 0 {
        assert(n * u >= u && n * u <= t * u) by (nonlinear_arith)
            requires
                1 <= n <= t,
                u > 0,
        ;
    } else {
        assert(0 * u == 0);
    }
    law_scaling_is_near(x, a as nat, b as nat);
    if ticks < 0 {
        law_scaling_is_odd(n as nat, a as nat, b as nat);
        let v = quotient(product(x, of_whole(a as nat)), of_whole(b as nat)).value();
        let w = ticks_to_secs(ticks, base).value();
        assert(w == -v);
        assert(a * (ticks * u) == -(a * (n * u))) by (nonlinear_arith)
            requires
                ticks == -n,
        ;
        assert(b * w == -(b * v)) by (nonlinear_arith)
            requires
                w == -v,
        ;
        assert(t * (b * w - a * (ticks * u)) == t * (a * (n * u) - b * v)) by (nonlinear_arith)
            requires
                b * w == -(b * v),
                a * (ticks * u) == -(a * (n * u)),
        ;
        assert(t * -(b * w - a * (ticks * u)) == t * (b * v - a * (n * u))) by (nonlinear_arith)
            requires
                b * w == -(b * v),
                a * (ticks * u) == -(a * (n * u)),
        ;
    } else {
        let v = ticks_to_secs(ticks, base).value();
        assert(t * -(b * v - a * (n * u)) == t * (a * (n * u) - b * v)) by (nonlinear_arith);
    }
}

/// A frame before the start of the range is passed over, one at its end or beyond ends the reading,
/// and every other is shown as long after the start of the video as it stands after the start of
/// the range, to the precision of a double. Without a range, it is shown at its own time.
pub proof fn law_range_decides(start: Double, end: Double, ts: Double)
    requires
        start.spec_is_finite(),
        !end.spec_is_nan(),
        ts.spec_is_finite(),
        difference(ts, start).spec_is_finite(),
    ensures
        match fate_at(Some((start, end)), ts) {
            FrameFate::Skip => ts.value() < start.value(),
            FrameFate::Stop => start.value() <= ts.value() && end.value() <= ts.value(),
            FrameFate::Show(shown) => {
                let exact = ts.value() - start.value();
                &&& start.value() <= ts.value() < end.value()
                &&& pow2(53) * (shown.value() - exact) <= exact
                &&& pow2(53) * (exact - shown.value()) <= exact
            },
        },
        fate_at(None, ts) == FrameFate::Show(ts),
{
    let minus = negated(start);
    assert(minus.magnitude() == start.magnitude());
    assert(minus.value() == -start.value());
    law_sum_is_near(ts, minus);
    let exact = ts.value() - start.value();
    let off = difference(ts, start).value() - exact;
    assert(pow2(53) * -off == pow2(53) * (exact - difference(ts, start).value()));
}

/// Only frames that are shown are counted, and only they move the end of what has been shown; frames
/// of the input are never counted as added ones.
pub proof fn law_only_shown_frames_count(d: VideoDecoder, pts: Option<i64>)
    requires
        d.real_frame_count < u64::MAX,
    ensures
        ({
            let after = after_frame(d, pts);
            let shown = fate_at(d.range, frame_time(d, pts)) is Show;
            &&& after.real_frame_count - d.real_frame_count == if shown {
                1int
            } else {
                0int
            }
            &&& after.last_ts == if shown {
                Some(frame_time(d, pts))
            } else {
                d.last_ts
            }
            &&& after.extended_count == d.extended_count
            &&& after.range == d.range
        }),
{
}

/// The times of a live input are counted from its first frame, whatever comes later.
pub proof fn law_live_times_count_from_the_first(d: VideoDecoder, first: i64, second: i64)
    requires
        d.normalize_start,
        d.base_ts is None,
    ensures
        ({
            let seen = after_frame(d, Some(first));
            let later = after_frame(seen, Some(second));
            &&& frame_time(seen, Some(second)) == difference(
                ticks_to_secs(second as int, d.time_base),
                ticks_to_secs(first as int, d.time_base),
            )
            &&& later.base_ts == seen.base_ts
            &&& seen.base_ts == Some(ticks_to_secs(first as int, d.time_base))
        }),
{
}

/// What it is for a number to be positive, and not to be above zero.
proof fn lemma_sign(x: Double)
    ensures
        is_positive(x) <==> !x.spec_is_nan() && x.value() > 0,
        x.at_most(Double { bits: 0 }) <==> !x.spec_is_nan() && x.value() <= 0,
        (Double { bits: 0 }).value() == 0,
{
    crate::double::lemma_magnitudes_ordered(0, 0);
}

/// Which of three rates is used, whatever they are.
proof fn lemma_rate_order(first: Double, average: Double, known: bool, fallback: Option<Double>)
    requires
        !first.spec_is_nan(),
        !average.spec_is_nan(),
        !known ==> average.value() <= 0,
    ensures
        ({
            let zero = Double { bits: 0 };
            let second = if first.at_most(zero) && known {
                average
            } else {
                first
            };
            let rate = if second.at_most(zero) {
                match fallback {
                    Some(rate) => rate,
                    None => zero,
                }
            } else {
                second
            };
            &&& first.value() > 0 ==> rate == first
            &&& first.value() <= 0 && average.value() > 0 ==> rate == average
            &&& first.value() <= 0 && average.value() <= 0 ==> match fallback {
                Some(given) => rate == given,
                None => rate.value() == 0,
            }
        }),
{
    lemma_sign(first);
    lemma_sign(average);
}

/// Frames that are added go on at the distance of the last two that were shown; a frame that does not
/// come after the one before says nothing of the distance.
pub proof fn law_added_frames_keep_the_pace(d: VideoDecoder, pts: Option<i64>, prev: Double)
    requires
        d.last_ts == Some(prev),
        fate_at(d.range, frame_time(d, pts)) is Show,
    ensures
        ({
            let ts = frame_time(d, pts);
            let distance = difference(ts, prev);
            let after = after_frame(d, pts);
            &&& !distance.spec_is_nan() && distance.value() > 0 ==> step_of(after) == distance
                && first_black(after) == sum(ts, distance)
            &&& !distance.spec_is_nan() && distance.value() <= 0 ==> step_of(after) == step_of(d)
        }),
{
    let ts = frame_time(d, pts);
    let distance = difference(ts, prev);
    let after = after_frame(d, pts);
    lemma_sign(distance);
    assert(after.last_ts == Some(ts));
    assert(after.frame_interval == if is_positive(distance) {
        distance
    } else {
        d.frame_interval
    });
}

/// Without a distance between frames, added ones are as far apart as the frame rate says, or else as
/// the danmaku move.
pub proof fn law_first_step_goes_by_the_rate(d: VideoDecoder)
    requires
        d.frame_interval == (Double { bits: 0 }),
        d.frame_rate.spec_is_finite(),
    ensures
        d.frame_rate.value() > 0 ==> crate::encoder::frame_secs_of(d.frame_rate) == Some(step_of(d)),
        d.frame_rate.value() <= 0 ==> step_of(d) == d.extend_frame_duration,
{
    crate::double::lemma_magnitudes_ordered(0, 0);
}

/// No frame is added beyond the deadline by more than a step, or the time of a frame of danmaku if
/// that is longer, where the times add up without rounding.
pub proof fn law_extension_goes_no_further(d: VideoDecoder, deadline: Double, t: Double)
    requires
        d.extend_max_deadline == Some(deadline),
        next_black(d) == Some(t),
        !step_of(d).spec_is_nan(),
        !d.extend_frame_duration.spec_is_nan(),
        stop_of(d, deadline).value() == deadline.value() + greater(
            step_of(d),
            d.extend_frame_duration,
        ).value(),
    ensures
        t.value() < deadline.value() + step_of(d).value() || t.value() < deadline.value()
            + d.extend_frame_duration.value(),
        t.value() < deadline.value() + greater(step_of(d), d.extend_frame_duration).value(),
{
}

/// The frame rate is the measured one if that is positive, or else the average one if that is, or
/// else what is gone by without them.
pub proof fn law_known_rate_is_used(f: StreamFacts, fallback: Option<Double>)
    requires
        !measured_rate(f).spec_is_nan(),
        !rate_of(f.avg_frame_rate).spec_is_nan(),
    ensures
        ({
            let measured = measured_rate(f).value();
            let average = rate_of(f.avg_frame_rate).value();
            let rate = frame_rate_of(f, fallback);
            &&& measured > 0 ==> rate == measured_rate(f)
            &&& measured <= 0 && average > 0 ==> rate == rate_of(f.avg_frame_rate)
            &&& measured <= 0 && average <= 0 ==> match fallback {
                Some(given) => rate == given,
                None => rate.value() == 0,
            }
        }),
{
    let average = rate_of(f.avg_frame_rate);
    lemma_sign(average);
    lemma_rate_order(measured_rate(f), average, f.avg_frame_rate.denominator > 0, fallback);
}

/// As many seconds as there are frames over the frame rate, to the precision of a double.
pub proof fn lemma_length(frame_count: u64, frame_rate: Double)
    requires
        0 < frame_count < pow2(53),
        frame_rate.spec_is_finite(),
        pow2(1000) <= frame_rate.value() <= pow2(1138),
    ensures
        ({
            let exact = frame_count * unit() * unit();
            let length = quotient(of_whole(frame_count as nat), frame_rate);
            &&& length.spec_is_finite()
            &&& (pow2(53) - 1) * exact <= pow2(53) * (length.value() * frame_rate.value()) <= (pow2(
                53,
            ) + 1) * exact
        }),
{
    let u = unit() as int;
    let t = pow2(53) as int;
    let x = of_whole(frame_count as nat);
    let y = frame_rate.value();
    lemma2_to64();
    lemma2_to64_rest();
    lemma_pow2_pos(1074);
    lemma_pow2_pos(1000);
    crate::double::lemma_magnitudes_ordered(frame_rate.magnitude(), 0);
    law_whole_is_exact(frame_count as nat);
    let n = size(x) * unit();
    let exact = frame_count * u * u;
    assert(n == exact) by (nonlinear_arith)
        requires
            n == (frame_count * u) * u,
            exact == frame_count * u * u,
    ;
    lemma_pow2_adds(1074, 1074);
    lemma_pow2_adds(1138, 52);
    lemma_pow2_adds(53, 2148);
    lemma_pow2_adds(1000, 1201);
    lemma_pow2_strictly_increases(1190, 2148);
    assert(exact >= u * u && exact <= t * (u * u)) by (nonlinear_arith)
        requires
            exact == frame_count * u * u,
            1 <= frame_count <= t,
            u > 0,
    ;
    assert(exact >= y * pow2(52)) by (nonlinear_arith)
        requires
            exact >= pow2(1190),
            y <= pow2(1138),
            pow2(1190) == pow2(1138) * pow2(52),
    ;
    assert(exact <= y * pow2(1201)) by (nonlinear_arith)
        requires
            exact <= pow2(2201),
            y >= pow2(1000),
            pow2(2201) == pow2(1000) * pow2(1201),
    ;
    lemma_rounds_below_power(n, y as nat, 1201);
    law_quotient_is_near(x, frame_rate);
    let length = quotient(x, frame_rate);
    let l = length.value();
    assert(t * (l * y) <= (t + 1) * exact && (t - 1) * exact <= t * (l * y)) by (nonlinear_arith)
        requires
            t * (y * l - exact) <= exact,
            t * (exact - y * l) <= exact,
    ;
}

/// A range starts within a video if it starts before as many seconds have passed as there are
/// frames over the frame rate, and beyond it otherwise, to the precision of a double.
pub proof fn law_start_is_held_against_length(
    start: Double,
    end: Double,
    frame_count: u64,
    frame_rate: Double,
)
    requires
        !start.spec_is_nan(),
        0 < frame_count < pow2(53),
        frame_rate.spec_is_finite(),
        pow2(1000) <= frame_rate.value() <= pow2(1138),
    ensures
        ({
            let exact = frame_count * unit() * unit();
            match start_of(Some((start, end)), frame_count, frame_rate) {
                RangeStart::Within => pow2(53) * (start.value() * frame_rate.value()) < (pow2(53)
                    + 1) * exact,
                RangeStart::Beyond(length) => {
                    &&& length.value() <= start.value()
                    &&& (pow2(53) - 1) * exact <= pow2(53) * (length.value() * frame_rate.value())
                        <= (pow2(53) + 1) * exact
                },
                RangeStart::Unknown => false,
            }
        }),
        start_of(None, frame_count, frame_rate) is Within,
        start_of(Some((start, end)), 0, frame_rate) is Unknown,
{
    let t = pow2(53) as int;
    let y = frame_rate.value();
    let exact = frame_count * unit() * unit();
    let l = quotient(of_whole(frame_count as nat), frame_rate).value();
    let s = start.value();
    lemma2_to64_rest();
    lemma_pow2_pos(1000);
    lemma_sign(frame_rate);
    lemma_length(frame_count, frame_rate);
    if l > s {
        assert(t * (s * y) < (t + 1) * exact) by (nonlinear_arith)
            requires
                t * (l * y) <= (t + 1) * exact,
                l > s,
                y > 0,
                t > 0,
        ;
    }
}

/// A rate is its numerator over its denominator, in single precision; it is zero without a positive
/// denominator.
pub proof fn law_rate_is_the_ratio(r: Rational)
    requires
        r.numerator > 0,
    ensures
        r.denominator > 0 ==> {
            let rate = rate_of(r).value();
            let exact = r.numerator * unit();
            &&& 0x10_0000 * (rate * r.denominator - exact) <= exact
            &&& 0x10_0000 * (exact - rate * r.denominator) <= exact
        },
        r.denominator <= 0 ==> rate_of(r).value() == 0,
{
    let u = unit();
    let a = r.numerator as int;
    let b = r.denominator as int;
    assert((Double { bits: 0 }).value() == 0);
    if b > 0 {
        lemma2_to64();
        lemma2_to64_rest();
        lemma_pow2_pos(1074);
        lemma_pow2_adds(31, 1074);
        lemma_pow2_strictly_increases(1040, 1074);
        lemma_pow2_strictly_increases(1105, 1138);
        assert(a * u >= u && a * u <= 0x8000_0000 * u && b * u >= u && b * u <= 0x8000_0000 * u)
            by (nonlinear_arith)
            requires
                1 <= a <= 0x8000_0000,
                1 <= b <= 0x8000_0000,
        ;
        law_single_ratio_is_near((a * u) as nat, (b * u) as nat);
        let m = rate_of(r).value();
        assert(0x10_0000 * (m * b - a * u) <= a * u && 0x10_0000 * (a * u - m * b) <= a * u)
            by (nonlinear_arith)
            requires
                0x10_0000 * (m * (b * u) - (a * u) * u) <= (a * u) * u,
                0x10_0000 * ((a * u) * u - m * (b * u)) <= (a * u) * u,
                u > 0,
        ;
    }
}

/// Where a stream tells its rate, how many frames it has and how long it lasts, its frame rate is the
/// frames over the seconds, in single precision; without the one or the other, it is the rate that is
/// told, and without that nothing.
pub proof fn law_rate_is_frames_over_seconds(f: StreamFacts)
    requires
        !rate_of(f.rate).spec_is_nan(),
        !ticks_to_secs(f.duration as int, f.time_base).spec_is_nan(),
    ensures
        ({
            let rate = rate_of(f.rate);
            let secs = ticks_to_secs(f.duration as int, f.time_base);
            let measured = measured_rate(f);
            &&& rate.value() <= 0 ==> measured.value() == 0
            &&& rate.value() > 0 && (f.frames <= 0 || f.duration <= 0 || secs.value() <= 0)
                ==> measured == rate
            &&& rate.value() > 0 && 0 < f.frames && f.duration > 0 && secs.spec_is_finite() && pow2(
                1040,
            ) <= secs.value() <= pow2(1138) ==> {
                let exact = f.frames * unit() * unit();
                &&& 0x10_0000 * (measured.value() * secs.value() - exact) <= exact
                &&& 0x10_0000 * (exact - measured.value() * secs.value()) <= exact
            }
        }),
{
    let rate = rate_of(f.rate);
    let secs = ticks_to_secs(f.duration as int, f.time_base);
    lemma_sign(rate);
    lemma_sign(secs);
    if rate.value() > 0 && 0 < f.frames && f.duration > 0 && secs.spec_is_finite() && pow2(1040)
        <= secs.value() <= pow2(1138) {
        let u = unit();
        let n = f.frames as int;
        lemma2_to64();
        lemma2_to64_rest();
        lemma_pow2_pos(1074);
        lemma_pow2_pos(1040);
        lemma_pow2_adds(63, 1074);
        lemma_pow2_strictly_increases(1040, 1074);
        lemma_pow2_strictly_increases(1137, 1138);
        assert(n * u >= u && n * u <= 0x8000_0000_0000_0000 * u) by (nonlinear_arith)
            requires
                1 <= n <= 0x8000_0000_0000_0000,
        ;
        law_single_ratio_is_near((n * u) as nat, secs.value() as nat);
    }
}

/// A video of which nothing has been shown yet is extended from its own start on: the first black
/// frame is shown at zero.
pub proof fn law_extension_starts_at_zero(d: VideoDecoder)
    requires
        d.last_ts is None,
        d.range matches Some((start, _)) ==> start.spec_is_finite(),
    ensures
        shown_at(d.range, first_black(d)) == (Double { bits: 0 }),
{
    if let Some((start, end)) = d.range {
        law_difference_with_itself(start);
    }
}

/// Once a frame has come that ends the range, no frame is added any more.
pub proof fn law_nothing_is_added_after_the_range(d: VideoDecoder, pts: Option<i64>, n: nat)
    requires
        fate_at(d.range, frame_time(d, pts)) is Stop,
    ensures
        next_black(after_ends(after_frame(d, pts), n)) is None,
    decreases n,
{
    if n > 0 {
        law_nothing_is_added_after_the_range(d, pts, (n - 1) as nat);
        lemma_ends_keep_deadline(after_frame(d, pts), n);
    }
}

proof fn lemma_ends_keep_deadline(d: VideoDecoder, n: nat)
    ensures
        after_ends(d, n).extend_max_deadline == d.extend_max_deadline,
    decreases n,
{
    if n > 0 {
        lemma_ends_keep_deadline(d, (n - 1) as nat);
    }
}

/// A frame is added exactly if it comes before the deadline and a step after it, or the time of a
/// frame of danmaku if that is longer, and before the end of the range.
pub proof fn law_deadline_decides(d: VideoDecoder, deadline: Double)
    requires
        d.extend_max_deadline == Some(deadline),
        !first_black(d).spec_is_nan(),
        !step_of(d).spec_is_nan(),
        !d.extend_frame_duration.spec_is_nan(),
        !sum(deadline, step_of(d)).spec_is_nan(),
        !sum(deadline, d.extend_frame_duration).spec_is_nan(),
        d.range matches Some((_, end)) ==> !end.spec_is_nan(),
    ensures
        ({
            let t = first_black(d).value();
            let room = d.range matches Some((_, end)) ==> t < end.value();
            let longer = if step_of(d).value() < d.extend_frame_duration.value() {
                d.extend_frame_duration
            } else {
                step_of(d)
            };
            next_black(d) is Some <==> room && t < sum(deadline, longer).value()
        }),
{
}

/// Where a range is jumped to is the last whole microsecond that is not after its start, but for the
/// rounding of doubles.
pub proof fn law_jump_is_to_the_start(start: Double)
    requires
        start.spec_is_finite(),
        pow2(1000) <= start.value() <= pow2(1110),
    ensures
        ({
            let exact = 1_000_000 * start.value();
            let n = seek_micros(start);
            &&& pow2(53) * (n * unit()) <= (pow2(53) + 1) * exact
            &&& (pow2(53) - 1) * exact < pow2(53) * ((n + 1) * unit())
        }),
{
    let u = unit() as int;
    let t = pow2(53) as int;
    let v = start.value();
    let p = product(start, of_whole(1_000_000));
    lemma2_to64();
    lemma2_to64_rest();
    lemma_pow2_pos(1074);
    lemma_pow2_pos(1000);
    law_whole_is_exact(1_000_000);
    let n = size(start) * size(of_whole(1_000_000));
    assert(n == u * (1_000_000 * v)) by (nonlinear_arith)
        requires
            n == v * (1_000_000 * u),
    ;
    lemma_pow2_strictly_increases(52, 1000);
    lemma_pow2_adds(20, 1110);
    lemma_pow2_adds(56, 1074);
    assert(n >= u * pow2(52) && n <= u * pow2(1130)) by (nonlinear_arith)
        requires
            n == u * (1_000_000 * v),
            pow2(52) <= v <= pow2(1110),
            pow2(1130) == 0x10_0000 * pow2(1110),
            u > 0,
    ;
    lemma_rounds_below_power(n as nat, unit(), 1130);
    law_product_is_near(start, of_whole(1_000_000));
    let w = p.value();
    let e = 1_000_000 * v;
    assert(t * (w - e) <= e && t * (e - w) <= e) by (nonlinear_arith)
        requires
            t * (u * w - n) <= n,
            t * (n - u * w) <= n,
            n == u * e,
            u > 0,
    ;
    assert(w <= 0x100_0000_0000_0000 * u);
    assert(0x100_0000_0000_0000 * u <= i64::MAX * u && 0x100_0000_0000_0000 * u <= u64::MAX * u)
        by (nonlinear_arith)
        requires
            u > 0,
    ;
    law_truncation_is_floor(p);
    let k = truncated(p);
    assert(k <= i64::MAX) by (nonlinear_arith)
        requires
            k * u <= i64::MAX * u,
            u > 0,
    ;
    assert(t * (k * u) <= (t + 1) * e) by (nonlinear_arith)
        requires
            k * u <= w,
            t * (w - e) <= e,
            t > 0,
    ;
    assert((t - 1) * e < t * ((k + 1) * u)) by (nonlinear_arith)
        requires
            w < (k + 1) * u,
            t * (e - w) <= e,
            t > 0,
    ;
}

} // verus!
