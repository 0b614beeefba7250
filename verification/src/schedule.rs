//! When danmaku appear, and how long the video is to be.

use crate::arith::{
    ceiling, difference, is_amount, law_ceiling_is_least, law_quotient_of_wholes, law_sum_is_near,
    law_whole_is_exact, lemma_small_summand, lemma_zero_rounds, of_whole, product, quotient, size,
    sum,
};
use crate::danmaku::{Danmaku, DanmakuMode, DanmakuView, ModeView};
use crate::document::{danmaku_views, times_fit};
use crate::double::{lemma_magnitudes_ordered, lesser, unit, Double};
use crate::duration::{span_of, Duration, MAX_NANOS};
use crate::layout::ceil_div;
use vstd::arithmetic::div_mod::*;
use vstd::arithmetic::power2::*;
use vstd::prelude::*;

verus! {

/// A span in seconds, to double precision.
pub open spec fn secs_of(d: Duration) -> Double {
    sum(
        of_whole((d.nanos / 1_000_000_000) as nat),
        quotient(of_whole((d.nanos % 1_000_000_000) as nat), of_whole(1_000_000_000)),
    )
}

impl Duration {
    /// The span in seconds, to double precision.
    pub fn as_secs(self) -> (secs: Double)
        requires
            self.nanos <= MAX_NANOS,
        ensures
            secs == secs_of(self),
    {
        let whole: u64 = (self.nanos / 1_000_000_000) as u64;
        let rest: u64 = (self.nanos % 1_000_000_000) as u64;
        Double::from_u64(whole).plus(
            Double::from_u64(rest).over(Double::from_u64(1_000_000_000)),
        )
    }
}

/// A danmaku appears from `start` on, and before `end`.
pub open spec fn is_within(d: DanmakuView, start: Double, end: Double) -> bool {
    start.at_most(secs_of(d.time)) && secs_of(d.time).below(end)
}

/// A danmaku that appears earlier by `shift`.
pub open spec fn brought_forward(d: DanmakuView, shift: Duration) -> DanmakuView {
    DanmakuView {
        time: Duration {
            nanos: if d.time.nanos >= shift.nanos {
                (d.time.nanos - shift.nanos) as u128
            } else {
                0
            },
        },
        ..d
    }
}

/// The danmaku that appear from `start` on and before `end`, counted from `start`.
pub open spec fn clipped(
    danmakus: Seq<DanmakuView>,
    start: Double,
    end: Double,
    shift: Duration,
) -> Seq<DanmakuView> {
    danmakus.filter(|d: DanmakuView| is_within(d, start, end)).map_values(
        |d: DanmakuView| brought_forward(d, shift),
    )
}

/// Keeps the danmaku that appear from `start` on and before `end`, and counts their times from
/// `start`.
pub fn clip_to_range(danmakus: Vec<Danmaku>, start: Double, end: Double) -> (kept: Vec<Danmaku>)
    requires
        span_of(start) is Some,
        times_fit(danmaku_views(danmakus@)),
    ensures
        danmaku_views(kept@) == clipped(
            danmaku_views(danmakus@),
            start,
            end,
            span_of(start)->0,
        ),
        times_fit(danmaku_views(kept@)),
{
    let ghost views = danmaku_views(danmakus@);
    let shift = match Duration::try_from_secs(start) {
        Some(shift) => shift,
        None => Duration::zero(),
    };
    let ghost within = |d: DanmakuView| is_within(d, start, end);
    let ghost earlier = |d: DanmakuView| brought_forward(d, shift);
    let mut kept: Vec<Danmaku> = Vec::new();
    proof {
        reveal(Seq::filter);
    }
    assert(danmaku_views(kept@) == views.take(0).filter(within).map_values(earlier));
    for d in it: danmakus
        invariant
            it.seq() == danmakus@,
            views == danmaku_views(danmakus@),
            times_fit(views),
            within == (|d: DanmakuView| is_within(d, start, end)),
            earlier == (|d: DanmakuView| brought_forward(d, shift)),
            danmaku_views(kept@) == views.take(it.index()).filter(within).map_values(earlier),
            times_fit(danmaku_views(kept@)),
    {
        let ghost n = it.index();
        proof {
            reveal(Seq::filter);
            assert(views.take(n + 1).drop_last() == views.take(n));
            assert(views.take(n + 1).last() == d@);
            assert(views[n] == d@);
        }
        let t = d.time.as_secs();
        if start.le(t) && t.lt(end) {
            let ghost before = kept@;
            let moved = Danmaku {
                time: d.time.saturating_sub(shift),
                mode: d.mode,
                font_size: d.font_size,
                color: d.color,
                text: d.text,
            };
            assert(moved@ == brought_forward(d@, shift));
            kept.push(moved);
            assert(danmaku_views(kept@) == danmaku_views(before).push(moved@));
            assert(views.take(n + 1).filter(within).map_values(earlier) == views.take(n).filter(
                within,
            ).map_values(earlier).push(brought_forward(d@, shift)));
        }
    }
    assert(views.take(views.len() as int) == views);
    kept
}

/// The danmaku are in order, the latest first.
pub open spec fn latest_first(danmakus: Seq<Danmaku>) -> bool {
    forall|i: int, j: int|
        0 <= i <= j < danmakus.len() ==> (#[trigger] danmakus[i]).time.nanos >= (
        #[trigger] danmakus[j]).time.nanos
}

/// `<[T]>::sort_unstable_by_key`, by time, the latest first: a permutation, in order. In which order
/// danmaku of the same time come is left open.
#[verifier::external_body]
fn sort_latest_first(danmakus: &mut Vec<Danmaku>)
    ensures
        latest_first(final(danmakus)@),
        final(danmakus)@.to_multiset() == old(danmakus)@.to_multiset(),
        final(danmakus)@.len() == old(danmakus)@.len(),
{
    danmakus.sort_unstable_by_key(|d| std::cmp::Reverse(d.time.nanos));
}

/// The danmaku that have not appeared yet.
pub struct Schedule {
    waiting: Vec<Danmaku>,
}

impl View for Schedule {
    type V = Seq<Danmaku>;

    closed spec fn view(&self) -> Seq<Danmaku> {
        self.waiting@
    }
}

/// Of the danmaku in `waiting`, the first `k` appear after `now`, and the others do not.
pub open spec fn parts_at(waiting: Seq<Danmaku>, now: Duration, k: int) -> bool {
    &&& 0 <= k <= waiting.len()
    &&& forall|i: int| 0 <= i < k ==> (#[trigger] waiting[i]).time.nanos > now.nanos
    &&& forall|i: int| k <= i < waiting.len() ==> (#[trigger] waiting[i]).time.nanos <= now.nanos
}

impl Schedule {
    /// What is to come is in order, the latest first.
    pub open spec fn wf(&self) -> bool {
        latest_first(self@)
    }

    /// Lets danmaku wait for their time.
    pub fn new(danmakus: Vec<Danmaku>) -> (schedule: Schedule)
        ensures
            schedule.wf(),
            schedule@.to_multiset() == danmakus@.to_multiset(),
            schedule@.len() == danmakus@.len(),
    {
        let mut waiting = danmakus;
        sort_latest_first(&mut waiting);
        Schedule { waiting }
    }

    /// Takes out the danmaku whose time has come, the earliest first.
    pub fn take_ready(&mut self, now: Duration) -> (ready: Vec<Danmaku>)
        requires
            old(self).wf(),
        ensures
            final(self).wf(),
            exists|k: int|
                {
                    &&& #[trigger] parts_at(old(self)@, now, k)
                    &&& final(self)@ == old(self)@.take(k)
                    &&& ready@ == old(self)@.skip(k).reverse()
                },
    {
        let ghost all = self.waiting@;
        let mut ready: Vec<Danmaku> = Vec::new();
        assert(all.take(all.len() as int) == all);
        assert(all.skip(all.len() as int).reverse() == ready@);
        while self.waiting.len() > 0 && self.waiting[self.waiting.len() - 1].time.nanos <= now.nanos
            invariant
                latest_first(all),
                self.waiting@.len() <= all.len(),
                self.waiting@ == all.take(self.waiting@.len() as int),
                ready@ == all.skip(self.waiting@.len() as int).reverse(),
                forall|i: int|
                    self.waiting@.len() <= i < all.len() ==> (#[trigger] all[i]).time.nanos
                        <= now.nanos,
            decreases self.waiting@.len(),
        {
            let ghost k = self.waiting@.len();
            match self.waiting.pop() {
                Some(d) => {
                    assert(d == all[k - 1]);
                    ready.push(d);
                    assert(all.skip(k - 1).reverse() == all.skip(k as int).reverse().push(
                        all[k - 1],
                    ));
                    assert(all.take(k - 1) == all.take(k as int).drop_last());
                },
                None => {},
            }
        }
        proof {
            let k = self.waiting@.len() as int;
            assert forall|i: int| 0 <= i < k implies (#[trigger] all[i]).time.nanos > now.nanos by {
                assert(self.waiting@[k - 1] == all[k - 1]);
                assert(all[i].time.nanos >= all[k - 1].time.nanos);
            }
            assert(parts_at(all, now, k));
        }
        ready
    }
}

/// The danmaku whose time has come are handed out in the order of their times.
pub proof fn law_ready_in_order(waiting: Seq<Danmaku>, k: int, i: int, j: int)
    requires
        latest_first(waiting),
        0 <= k <= waiting.len(),
        0 <= i <= j < waiting.len() - k,
    ensures
        waiting.skip(k).reverse()[i].time.nanos <= waiting.skip(k).reverse()[j].time.nanos,
{
    let rest = waiting.skip(k);
    assert(rest.reverse()[i] == waiting[waiting.len() - 1 - i]);
    assert(rest.reverse()[j] == waiting[waiting.len() - 1 - j]);
}

/// When a danmaku is gone, in seconds: `width` is that of its text.
pub open spec fn gone_at(
    d: DanmakuView,
    width: int,
    video_width: int,
    speed: int,
    frame_secs: Double,
    fixed_secs: Double,
) -> Double {
    match d.mode {
        ModeView::Scroll | ModeView::Reverse => sum(
            secs_of(d.time),
            product(of_whole(ceil_div(width + video_width, speed) as nat), frame_secs),
        ),
        ModeView::Top | ModeView::Bottom | ModeView::Bas => sum(secs_of(d.time), fixed_secs),
        ModeView::Advance { .. } => secs_of(d.time),
    }
}

/// When the last of the first `n` danmaku is gone, in seconds; `widths` are those of their texts.
pub open spec fn last_gone_at(
    danmakus: Seq<DanmakuView>,
    widths: Seq<u32>,
    video_width: int,
    speed: int,
    frame_secs: Double,
    fixed_secs: Double,
    n: int,
) -> Double
    decreases n,
{
    if n <= 0 {
        Double { bits: 0 }
    } else {
        let before = last_gone_at(
            danmakus,
            widths,
            video_width,
            speed,
            frame_secs,
            fixed_secs,
            n - 1,
        );
        let this = gone_at(
            danmakus[n - 1],
            widths[n - 1] as int,
            video_width,
            speed,
            frame_secs,
            fixed_secs,
        );
        if before.below(this) {
            this
        } else {
            before
        }
    }
}

/// No danmaku is gone later than the last one.
pub proof fn law_none_gone_later(
    danmakus: Seq<DanmakuView>,
    widths: Seq<u32>,
    video_width: int,
    speed: int,
    frame_secs: Double,
    fixed_secs: Double,
    n: int,
    i: int,
)
    requires
        0 <= i < n <= danmakus.len(),
        widths.len() == danmakus.len(),
        forall|j: int|
            0 <= j < n ==> !gone_at(
                #[trigger] danmakus[j],
                widths[j] as int,
                video_width,
                speed,
                frame_secs,
                fixed_secs,
            ).spec_is_nan(),
    ensures
        gone_at(
            danmakus[i],
            widths[i] as int,
            video_width,
            speed,
            frame_secs,
            fixed_secs,
        ).at_most(
            last_gone_at(danmakus, widths, video_width, speed, frame_secs, fixed_secs, n),
        ),
    decreases n,
{
    lemma_last_gone_is_number(danmakus, widths, video_width, speed, frame_secs, fixed_secs, n - 1);
    assert(danmakus[n - 1] == danmakus[n - 1]);
    if i < n - 1 {
        law_none_gone_later(
            danmakus,
            widths,
            video_width,
            speed,
            frame_secs,
            fixed_secs,
            n - 1,
            i,
        );
    }
}

proof fn lemma_last_gone_is_number(
    danmakus: Seq<DanmakuView>,
    widths: Seq<u32>,
    video_width: int,
    speed: int,
    frame_secs: Double,
    fixed_secs: Double,
    n: int,
)
    requires
        0 <= n <= danmakus.len(),
        forall|j: int|
            0 <= j < n ==> !gone_at(
                #[trigger] danmakus[j],
                widths[j] as int,
                video_width,
                speed,
                frame_secs,
                fixed_secs,
            ).spec_is_nan(),
    ensures
        !last_gone_at(
            danmakus,
            widths,
            video_width,
            speed,
            frame_secs,
            fixed_secs,
            n,
        ).spec_is_nan(),
    decreases n,
{
    if n > 0 {
        assert(danmakus[n - 1] == danmakus[n - 1]);
        lemma_last_gone_is_number(
            danmakus,
            widths,
            video_width,
            speed,
            frame_secs,
            fixed_secs,
            n - 1,
        );
    }
}

/// Tells when a danmaku is gone, in seconds.
fn when_gone(
    d: &Danmaku,
    width: u32,
    video_width: u32,
    speed: u32,
    frame_secs: Double,
    fixed_secs: Double,
) -> (secs: Double)
    requires
        speed > 0,
        width + video_width <= u32::MAX,
        d.time.nanos <= MAX_NANOS,
    ensures
        secs == gone_at(
            d@,
            width as int,
            video_width as int,
            speed as int,
            frame_secs,
            fixed_secs,
        ),
{
    match &d.mode {
        DanmakuMode::Scroll | DanmakuMode::Reverse => {
            let way: u32 = width + video_width;
            let frames: u64 = if way % speed == 0 {
                (way / speed) as u64
            } else {
                (way / speed) as u64 + 1
            };
            d.time.as_secs().plus(Double::from_u64(frames).times(frame_secs))
        },
        DanmakuMode::Top | DanmakuMode::Bottom | DanmakuMode::Bas => d.time.as_secs().plus(
            fixed_secs,
        ),
        DanmakuMode::Advance { .. } => d.time.as_secs(),
    }
}

/// Tells when the last of the danmaku is gone, in seconds; `widths` are those of their texts.
pub fn compute_max_danmaku_deadline(
    danmakus: &Vec<Danmaku>,
    widths: &Vec<u32>,
    video_width: u32,
    speed: u32,
    frame_secs: Double,
    fixed_secs: Double,
) -> (secs: Double)
    requires
        speed > 0,
        widths@.len() == danmakus@.len(),
        times_fit(danmaku_views(danmakus@)),
        forall|i: int| 0 <= i < widths@.len() ==> #[trigger] widths@[i] + video_width <= u32::MAX,
    ensures
        secs == last_gone_at(
            danmaku_views(danmakus@),
            widths@,
            video_width as int,
            speed as int,
            frame_secs,
            fixed_secs,
            danmakus@.len() as int,
        ),
{
    let ghost views = danmaku_views(danmakus@);
    let mut latest = Double::zero();
    let mut i: usize = 0;
    while i < danmakus.len()
        invariant
            speed > 0,
            widths@.len() == danmakus@.len(),
            views == danmaku_views(danmakus@),
            times_fit(views),
            forall|k: int|
                0 <= k < widths@.len() ==> #[trigger] widths@[k] + video_width <= u32::MAX,
            i <= danmakus@.len(),
            latest == last_gone_at(
                views,
                widths@,
                video_width as int,
                speed as int,
                frame_secs,
                fixed_secs,
                i as int,
            ),
        decreases danmakus@.len() - i,
    {
        assert(views[i as int] == danmakus@[i as int]@);
        assert(widths@[i as int] + video_width <= u32::MAX);
        let this = when_gone(&danmakus[i], widths[i], video_width, speed, frame_secs, fixed_secs);
        if latest.lt(this) {
            latest = this;
        }
        i += 1;
    }
    latest
}

/// How long the video is to be.
#[derive(Clone, Copy, Debug, PartialEq, Eq, Structural)]
pub struct Extent {
    /// How many frames it is expected to have.
    pub total_frames: u64,
    /// Up to when it is to be extended, in seconds on the timeline of the input.
    pub extend_to: Option<Double>,
}

/// How many frames a video, or a range of it, is expected to have.
pub open spec fn frames_expected(
    range: Option<(Double, Double)>,
    frame_count: u64,
    frame_secs: Double,
) -> int {
    match range {
        Some((start, end)) => ceiling(quotient(difference(end, start), frame_secs)),
        None => frame_count as int,
    }
}

/// How long a video, or a range of it, is, in seconds; zero if that is not known.
pub open spec fn video_secs(
    range: Option<(Double, Double)>,
    frame_count: u64,
    frame_rate: Double,
) -> Double {
    match range {
        Some((start, end)) => difference(end, start),
        None => if (Double { bits: 0 }).below(frame_rate) {
            quotient(of_whole(frame_count as nat), frame_rate)
        } else {
            Double { bits: 0 }
        },
    }
}

/// How long the video is to be if it is extended until the last danmaku is gone: `last_gone` is when
/// that is, in seconds.
pub open spec fn extent_of(
    range: Option<(Double, Double)>,
    frame_count: u64,
    frame_rate: Double,
    frame_secs: Double,
    last_gone: Option<Double>,
) -> Extent {
    let plain = Extent {
        total_frames: frames_expected(range, frame_count, frame_secs) as u64,
        extend_to: None,
    };
    match last_gone {
        Some(secs) if video_secs(range, frame_count, frame_rate).below(secs) => Extent {
            total_frames: ceiling(quotient(sum(secs, frame_secs), frame_secs)) as u64,
            extend_to: Some(
                match range {
                    Some((start, end)) => lesser(sum(secs, start), end),
                    None => secs,
                },
            ),
        },
        _ => plain,
    }
}

/// Decides how long the video is to be; `last_gone` is when the last danmaku is gone, in seconds, if
/// the video is to be extended until then.
pub fn plan_extent(
    range: Option<(Double, Double)>,
    frame_count: u64,
    frame_rate: Double,
    frame_secs: Double,
    last_gone: Option<Double>,
) -> (extent: Extent)
    ensures
        extent == extent_of(range, frame_count, frame_rate, frame_secs, last_gone),
{
    let total_frames: u64 = match range {
        Some((start, end)) => end.minus(start).over(frame_secs).ceil_to_u64(),
        None => frame_count,
    };
    let duration = match range {
        Some((start, end)) => end.minus(start),
        None => if Double::zero().lt(frame_rate) {
            Double::from_u64(frame_count).over(frame_rate)
        } else {
            Double::zero()
        },
    };
    if let Some(secs) = last_gone {
        if duration.lt(secs) {
            let stop = match range {
                Some((start, end)) => secs.plus(start).min(end),
                None => secs,
            };
            return Extent {
                total_frames: secs.plus(frame_secs).over(frame_secs).ceil_to_u64(),
                extend_to: Some(stop),
            };
        }
    }
    Extent { total_frames, extend_to: None }
}

/// A video that is cut to no range is extended until the last danmaku is gone, unless it lasts that
/// long.
pub proof fn law_extended_until_all_are_gone(
    frame_count: u64,
    frame_rate: Double,
    frame_secs: Double,
    last_gone: Double,
)
    requires
        !last_gone.spec_is_nan(),
        !video_secs(None, frame_count, frame_rate).spec_is_nan(),
    ensures
        match extent_of(None, frame_count, frame_rate, frame_secs, Some(last_gone)).extend_to {
            Some(stop) => stop == last_gone,
            None => last_gone.at_most(video_secs(None, frame_count, frame_rate)),
        },
{
}

/// A span in seconds is its nanoseconds over as many as a second has, to within three times the
/// precision of a double.
pub proof fn law_seconds_are_nanoseconds(d: Duration)
    requires
        d.nanos < pow2(53),
    ensures
        secs_of(d).spec_is_finite(),
        pow2(53) * (1_000_000_000 * secs_of(d).value() - d.nanos * unit()) <= 3 * (d.nanos * unit()),
        pow2(53) * (d.nanos * unit() - 1_000_000_000 * secs_of(d).value()) <= 3 * (d.nanos * unit()),
{
    let w = (d.nanos / 1_000_000_000) as nat;
    let r = (d.nanos % 1_000_000_000) as nat;
    let u = unit() as int;
    let a = of_whole(w);
    let f = quotient(of_whole(r), of_whole(1_000_000_000));
    let p = pow2(53) as int;
    lemma2_to64();
    lemma2_to64_rest();
    lemma_pow2_pos(1074);
    law_whole_is_exact(w);
    law_whole_is_exact(r);
    law_whole_is_exact(1_000_000_000);
    lemma_magnitudes_ordered(of_whole(1_000_000_000).magnitude(), 0);
    assert(1_000_000_000 * u > 0);
    assert(w * u <= p * u && w * u >= 0) by (nonlinear_arith)
        requires
            0 <= w <= p,
            u > 0,
    ;
    lemma_pow2_adds(53, 1074);
    lemma_pow2_unfold(1128);
    lemma_pow2_strictly_increases(1128, 2045);
    if r == 0 {
        assert(0 * u == 0);
        lemma_magnitudes_ordered(of_whole(r).magnitude(), 0);
        lemma_zero_rounds(size(of_whole(1_000_000_000)));
        assert(size(of_whole(r)) * unit() == 0) by (nonlinear_arith)
            requires
                size(of_whole(r)) == 0,
        ;
        assert(f.value() == 0);
    } else {
        law_quotient_of_wholes(r, 1_000_000_000);
    }
    lemma_small_summand(a, f);
    law_sum_is_near(a, f);
    let s = secs_of(d).value();
    let x = w * u + f.value();
    assert(d.nanos * u == 1_000_000_000 * (w * u) + r * u) by (nonlinear_arith)
        requires
            d.nanos == 1_000_000_000 * w + r,
    ;
    assert(r * u >= 0) by (nonlinear_arith)
        requires
            r >= 0,
            u > 0,
    ;
    assert(p * (s - x) <= x && p * (x - s) <= x);
    assert(p * (1_000_000_000 * s - 1_000_000_000 * x) <= 1_000_000_000 * x && p * (1_000_000_000 * x
        - 1_000_000_000 * s) <= 1_000_000_000 * x) by (nonlinear_arith)
        requires
            p * (s - x) <= x,
            p * (x - s) <= x,
    ;
    let g = 1_000_000_000 * f.value();
    assert(p * (g - r * u) <= r * u && p * (r * u - g) <= r * u) by {
        if r == 0 {
            assert(r * u == 0) by (nonlinear_arith)
                requires
                    r == 0,
            ;
            assert(g == 0);
            assert(p * 0 == 0);
        }
    }
    assert(g <= 2 * (r * u)) by (nonlinear_arith)
        requires
            p * (g - r * u) <= r * u,
            p >= 1,
            r * u >= 0,
    ;
    assert(p * (1_000_000_000 * s - d.nanos * u) == p * (1_000_000_000 * s - 1_000_000_000 * x) + p
        * (g - r * u)) by (nonlinear_arith)
        requires
            d.nanos * u == 1_000_000_000 * (w * u) + r * u,
            1_000_000_000 * x == 1_000_000_000 * (w * u) + g,
    ;
    assert(p * (d.nanos * u - 1_000_000_000 * s) == p * (1_000_000_000 * x - 1_000_000_000 * s) + p
        * (r * u - g)) by (nonlinear_arith)
        requires
            d.nanos * u == 1_000_000_000 * (w * u) + r * u,
            1_000_000_000 * x == 1_000_000_000 * (w * u) + g,
    ;
}

/// `after` is `before` on the time line of a range that begins at `shift`: earlier by `shift`, or at
/// the start if it was before it, and the same in everything else.
pub open spec fn moved_to_range(before: DanmakuView, after: DanmakuView, shift: Duration) -> bool {
    &&& before.time.nanos >= shift.nanos ==> after.time.nanos + shift.nanos == before.time.nanos
    &&& before.time.nanos < shift.nanos ==> after.time.nanos == 0
    &&& after == (DanmakuView { time: after.time, ..before })
}

/// `secs` is not below `start` and is below `end`.
pub open spec fn lies_within(secs: Double, start: Double, end: Double) -> bool {
    &&& !secs.spec_is_nan() && !start.spec_is_nan() && !end.spec_is_nan()
    &&& start.value() <= secs.value() < end.value()
}

proof fn lemma_within(danmaku: DanmakuView, start: Double, end: Double)
    ensures
        is_within(danmaku, start, end) <==> lies_within(secs_of(danmaku.time), start, end),
{
}

proof fn lemma_brought_forward(danmaku: DanmakuView, shift: Duration)
    ensures
        moved_to_range(danmaku, brought_forward(danmaku, shift), shift),
{
}

/// Of the danmaku, those are kept whose time, in seconds, is not below the start of the range and is
/// below its end; every one of them appears earlier by the start of the range, and is as it was in
/// everything else. No other is there.
pub proof fn law_range_keeps_what_lies_within(
    danmakus: Seq<DanmakuView>,
    start: Double,
    end: Double,
    shift: Duration,
    i: int,
)
    requires
        0 <= i < clipped(danmakus, start, end, shift).len(),
    ensures
        exists|j: int|
            0 <= j < danmakus.len() && lies_within(
                secs_of(#[trigger] danmakus[j].time),
                start,
                end,
            ) && moved_to_range(danmakus[j], clipped(danmakus, start, end, shift)[i], shift),
{
    let within = |d: DanmakuView| is_within(d, start, end);
    let kept = danmakus.filter(within);
    let before = kept[i];
    danmakus.lemma_filter_pred(within, i);
    danmakus.lemma_filter_contains_rev(within, before);
    lemma_within(before, start, end);
    lemma_brought_forward(before, shift);
    let j = choose|j: int| 0 <= j < danmakus.len() && danmakus[j] == before;
    assert(danmakus[j].time == before.time);
}

/// No danmaku is lost whose time, in seconds, is not below the start of the range and is below its
/// end.
pub proof fn law_range_loses_nothing(
    danmakus: Seq<DanmakuView>,
    start: Double,
    end: Double,
    shift: Duration,
    j: int,
)
    requires
        0 <= j < danmakus.len(),
        lies_within(secs_of(danmakus[j].time), start, end),
    ensures
        exists|i: int|
            0 <= i < clipped(danmakus, start, end, shift).len() && moved_to_range(
                danmakus[j],
                #[trigger] clipped(danmakus, start, end, shift)[i],
                shift,
            ),
{
    let within = |d: DanmakuView| is_within(d, start, end);
    let kept = danmakus.filter(within);
    lemma_within(danmakus[j], start, end);
    lemma_brought_forward(danmakus[j], shift);
    danmakus.lemma_filter_contains(within, j);
    let i = choose|i: int| 0 <= i < kept.len() && kept[i] == danmakus[j];
    assert(clipped(danmakus, start, end, shift)[i] == brought_forward(danmakus[j], shift));
}

/// What is taken out at a time are the danmaku whose time is not after it, and what waits on are
/// those whose time is; together they are what waited before.
pub proof fn law_ready_are_those_due(waiting: Seq<Danmaku>, now: Duration, k: int)
    requires
        parts_at(waiting, now, k),
    ensures
        forall|i: int|
            0 <= i < waiting.skip(k).reverse().len() ==> (#[trigger] waiting.skip(
                k,
            ).reverse()[i]).time.nanos <= now.nanos,
        forall|i: int|
            0 <= i < waiting.take(k).len() ==> (#[trigger] waiting.take(k)[i]).time.nanos
                > now.nanos,
        waiting.take(k) + waiting.skip(k) == waiting,
{
    let rest = waiting.skip(k);
    assert forall|i: int| 0 <= i < rest.reverse().len() implies (#[trigger] rest.reverse()[i]).time.nanos
        <= now.nanos by {
        assert(rest.reverse()[i] == waiting[waiting.len() - 1 - i]);
    }
}

/// The end of a range is the end of what is extended, too: a video that is cut to a range is extended
/// up to when the last danmaku is gone, counted from the start of the range, or up to the end of the
/// range, whichever comes first; and it is extended only if it would end before.
pub proof fn law_extension_stays_in_range(
    start: Double,
    end: Double,
    frame_count: u64,
    frame_rate: Double,
    frame_secs: Double,
    last_gone: Double,
)
    requires
        !last_gone.spec_is_nan(),
        !end.spec_is_nan(),
        !difference(end, start).spec_is_nan(),
        !sum(last_gone, start).spec_is_nan(),
    ensures
        match extent_of(
            Some((start, end)),
            frame_count,
            frame_rate,
            frame_secs,
            Some(last_gone),
        ).extend_to {
            Some(stop) => {
                &&& difference(end, start).value() < last_gone.value()
                &&& stop.value() <= end.value()
                &&& stop.value() <= sum(last_gone, start).value()
                &&& stop == end || stop == sum(last_gone, start)
            },
            None => last_gone.value() <= difference(end, start).value(),
        },
{
}

/// Without extension, a video has as many frames as the container says, and a range of it as many as
/// begin in it: the least number of them that lasts as long.
pub proof fn law_frames_cover_the_range(
    range: Option<(Double, Double)>,
    frame_count: u64,
    frame_rate: Double,
    frame_secs: Double,
)
    requires
        range is Some ==> {
            let (start, end) = range->0;
            let n = quotient(difference(end, start), frame_secs);
            is_amount(n) && n.value() <= u64::MAX * unit()
        },
    ensures
        ({
            let extent = extent_of(range, frame_count, frame_rate, frame_secs, None);
            &&& extent.extend_to is None
            &&& match range {
                None => extent.total_frames == frame_count,
                Some((start, end)) => {
                    let n = quotient(difference(end, start), frame_secs);
                    &&& n.value() <= extent.total_frames * unit()
                    &&& extent.total_frames > 0 ==> (extent.total_frames - 1) * unit() < n.value()
                },
            }
        }),
{
    if let Some((start, end)) = range {
        let n = quotient(difference(end, start), frame_secs);
        law_ceiling_is_least(n);
        let c = ceiling(n);
        assert(0 <= c <= u64::MAX);
    }
}

/// The last danmaku is gone when one of them is, or at zero.
pub proof fn law_last_is_one_of_them(
    danmakus: Seq<DanmakuView>,
    widths: Seq<u32>,
    video_width: int,
    speed: int,
    frame_secs: Double,
    fixed_secs: Double,
    n: int,
)
    requires
        0 <= n <= danmakus.len(),
    ensures
        ({
            let last = last_gone_at(
                danmakus,
                widths,
                video_width,
                speed,
                frame_secs,
                fixed_secs,
                n,
            );
            last == (Double { bits: 0 }) || exists|i: int|
                0 <= i < n && last == gone_at(
                    #[trigger] danmakus[i],
                    widths[i] as int,
                    video_width,
                    speed,
                    frame_secs,
                    fixed_secs,
                )
        }),
    decreases n,
{
    if n > 0 {
        law_last_is_one_of_them(
            danmakus,
            widths,
            video_width,
            speed,
            frame_secs,
            fixed_secs,
            n - 1,
        );
        assert(danmakus[n - 1] == danmakus[n - 1]);
    }
}

/// A video that is extended has as many frames as cover the time until the last danmaku is gone and
/// one frame more: the least number of them that lasts as long.
pub proof fn law_frames_cover_the_extension(
    range: Option<(Double, Double)>,
    frame_count: u64,
    frame_rate: Double,
    frame_secs: Double,
    last_gone: Double,
)
    requires
        ({
            let n = quotient(sum(last_gone, frame_secs), frame_secs);
            is_amount(n) && n.value() <= u64::MAX * unit()
        }),
        extent_of(range, frame_count, frame_rate, frame_secs, Some(last_gone)).extend_to is Some,
    ensures
        ({
            let n = quotient(sum(last_gone, frame_secs), frame_secs);
            let total = extent_of(
                range,
                frame_count,
                frame_rate,
                frame_secs,
                Some(last_gone),
            ).total_frames;
            &&& n.value() <= total * unit()
            &&& total > 0 ==> (total - 1) * unit() < n.value()
        }),
{
    let n = quotient(sum(last_gone, frame_secs), frame_secs);
    law_ceiling_is_least(n);
    let u = unit() as int;
    vstd::arithmetic::power2::lemma_pow2_pos(1074);
    let c = ceiling(n);
    if c > u64::MAX {
        assert((c - 1) * u >= u64::MAX * u) by (nonlinear_arith)
            requires
                c > u64::MAX,
                u > 0,
        ;
    }
}

/// A video without a range lasts as many seconds as it has frames over its frame rate, to the
/// precision of a double; it counts as empty where its rate is not positive.
pub proof fn law_length_is_frames_over_rate(frame_count: u64, frame_rate: Double)
    requires
        0 < frame_count < pow2(53),
        frame_rate.spec_is_finite(),
        pow2(1000) <= frame_rate.value() <= pow2(1138),
    ensures
        ({
            let exact = frame_count * unit() * unit();
            let got = video_secs(None, frame_count, frame_rate).value() * frame_rate.value();
            (pow2(53) - 1) * exact <= pow2(53) * got <= (pow2(53) + 1) * exact
        }),
{
    lemma_pow2_pos(1000);
    assert((Double { bits: 0 }).value() == 0);
    crate::decoder::lemma_length(frame_count, frame_rate);
}

/// The quotient that is rounded up is the least whole number that reaches as far.
pub proof fn law_rounding_up_is_least(a: int, b: int)
    requires
        a >= 0,
        b > 0,
    ensures
        ceil_div(a, b) * b >= a,
        (ceil_div(a, b) - 1) * b < a || a == 0,
        ceil_div(0, b) == 0,
{
    lemma_fundamental_div_mod(a, b);
    let q = a / b;
    assert(b * q == q * b && (q + 1) * b == q * b + b && (q - 1) * b == q * b - b)
        by (nonlinear_arith);
    lemma_fundamental_div_mod_converse(0, b, 0, 0);
}

} // verus!
