//! What holds of a danmaku from the frame in which it enters to the one in which it is gone.

use crate::arith::{of_whole, product, size, sum};
use crate::danmaku::{Danmaku, DanmakuView, ModeView};
use crate::double::{lemma_magnitudes_ordered, unit, Double};
use crate::duration::{span_of, Duration, MAX_NANOS};
use crate::layout::{
    ceil_div, comp_of, moved, painted, rails_needed, settled, verdicts, Direction, DrawParams,
    Placement, Slot,
};
use crate::layout_laws::lemma_settled_at;
use crate::raster::{laid_on, Frame, RgbaImage};
use crate::rounding::{lemma_magnitude_monotone, lemma_nearest_monotone};
use crate::schedule::{gone_at, secs_of};
use crate::stage::{
    after_burial, entering, entry_column, frames_to_cross, lane_of, reception_of, travel_of, Lane,
    Scene, Settings,
};
use vstd::arithmetic::div_mod::*;
use vstd::arithmetic::power2::lemma_pow2_pos;
use vstd::prelude::*;

verus! {

/// How long so many frames last, if that can be held.
pub open spec fn lasting(frame_secs: Double, frames: nat) -> Option<Duration> {
    span_of(product(of_whole(frames), frame_secs))
}

/// Where a danmaku is that starts at column `x` and moves on in so many frames.
pub open spec fn moved_on(x: int, direction: Direction, speed: int, frames: nat) -> int
    decreases frames,
{
    if frames == 0 {
        x
    } else {
        moved(moved_on(x, direction, speed, (frames - 1) as nat), direction, speed)
    }
}

/// So many frames move a danmaku on by so many times its speed.
proof fn lemma_moved_on(x: int, direction: Direction, speed: int, frames: nat)
    ensures
        moved_on(x, direction, speed, frames) == match direction {
            Direction::ToLeft => x - frames * speed,
            Direction::ToRight => x + frames * speed,
        },
    decreases frames,
{
    if frames > 0 {
        lemma_moved_on(x, direction, speed, (frames - 1) as nat);
        assert(frames * speed == (frames - 1) * speed + speed) by (nonlinear_arith);
    } else {
        assert(frames * speed == 0) by (nonlinear_arith)
            requires
                frames == 0,
        ;
    }
}

/// More frames do not last shorter; what more can be held of fewer can be held too.
proof fn lemma_lasting_grows(frame_secs: Double, n: nat, m: nat)
    requires
        n <= m,
        m <= u64::MAX,
        lasting(frame_secs, m) is Some,
    ensures
        lasting(frame_secs, n) is Some,
        lasting(frame_secs, n)->0.nanos <= lasting(frame_secs, m)->0.nanos,
{
    let u = unit();
    let a = of_whole(n);
    let b = of_whole(m);
    let c = product(a, frame_secs);
    let d = product(b, frame_secs);
    lemma_pow2_pos(1074);
    crate::arith::law_whole_is_amount(n);
    crate::arith::law_whole_is_amount(m);
    assert(n * u <= m * u) by (nonlinear_arith)
        requires
            n <= m,
    ;
    lemma_magnitude_monotone(n * u, m * u, 1);
    lemma_magnitudes_ordered(a.magnitude(), b.magnitude());
    assert(size(a) * size(frame_secs) <= size(b) * size(frame_secs)) by (nonlinear_arith)
        requires
            size(a) <= size(b),
    ;
    lemma_magnitude_monotone(size(a) * size(frame_secs), size(b) * size(frame_secs), u);
    assert(frame_secs.spec_is_finite());
    assert(c.magnitude() <= d.magnitude());
    lemma_magnitudes_ordered(c.magnitude(), d.magnitude());
    lemma_magnitudes_ordered(c.magnitude(), 0);
    lemma_magnitudes_ordered(d.magnitude(), 0);
    assert(0 <= c.value() <= d.value());
    lemma_div_is_ordered(c.value(), d.value(), u as int);
    lemma_div_is_ordered(0, c.value() * 1_000_000_000, u as int);
    lemma_nearest_monotone(c.value() * 1_000_000_000, d.value() * 1_000_000_000, u as int);
    lemma_span_nanos(d);
}

/// What lasts as long with more frames as with fewer lasts as long with any number between.
proof fn lemma_lasting_between(frame_secs: Double, n: nat, k: nat, m: nat)
    requires
        n <= k <= m,
        m <= u64::MAX,
        lasting(frame_secs, m) is Some,
        lasting(frame_secs, n) == lasting(frame_secs, m),
    ensures
        lasting(frame_secs, k) == lasting(frame_secs, m),
{
    lemma_lasting_grows(frame_secs, k, m);
    lemma_lasting_grows(frame_secs, n, k);
}

/// The nanoseconds of a span can be held.
proof fn lemma_span_nanos(secs: Double)
    requires
        span_of(secs) is Some,
    ensures
        0 <= crate::rounding::nearest(secs.value() * 1_000_000_000, unit() as int) <= u128::MAX,
{
    let u = unit() as int;
    let v = secs.value();
    lemma_pow2_pos(1074);
    lemma_fundamental_div_mod(v, u);
    let q = v / u;
    assert(v < (u64::MAX + 1) * u) by (nonlinear_arith)
        requires
            v == u * q + v % u,
            v % u < u,
            q <= u64::MAX,
            u > 0,
    ;
    assert(0 <= v * 1_000_000_000 < (u64::MAX + 1) * 1_000_000_000 * u) by (nonlinear_arith)
        requires
            0 <= v < (u64::MAX + 1) * u,
            u > 0,
    ;
    crate::rounding::lemma_nearest_bound(v * 1_000_000_000, u, (u64::MAX + 1) * 1_000_000_000);
}

/// How many frames it takes to cross: as many as bring the danmaku over the way, and no more.
proof fn lemma_frames_cross(s: Settings, width: int)
    requires
        s.speed > 0,
        width >= 0,
    ensures
        frames_to_cross(s, width) >= 0,
        frames_to_cross(s, width) <= width + s.video_width,
        frames_to_cross(s, width) * s.speed >= width + s.video_width,
        frames_to_cross(s, width) > 0 ==> (frames_to_cross(s, width) - 1) * s.speed < width
            + s.video_width,
{
    let way = width + s.video_width;
    let v = s.speed as int;
    let q = way / v;
    let n = frames_to_cross(s, width);
    lemma_fundamental_div_mod(way, v);
    lemma_mod_bound(way, v);
    lemma_div_pos_is_pos(way, v);
    assert(n * v >= way && (n - 1) * v < way && n <= way) by (nonlinear_arith)
        requires
            way == v * q + way % v,
            0 <= way % v < v,
            n == if way % v == 0 {
                q
            } else {
                q + 1
            },
            v > 0,
            q >= 0,
    ;
}

/// A danmaku that scrolls, to the left or to the right, is shown until it has left the frame: moved
/// on from the column at which it enters in as many frames as last as long as it is shown, none of
/// it is left of the frame's width. That one frame more lasts longer than it is shown says that the
/// frames are counted and not lost to rounding.
pub proof fn law_shown_until_it_has_crossed(s: Settings, width: u32, frames: nat, leftward: bool)
    requires
        s.speed > 0,
        width + s.video_width <= u32::MAX,
        frames < u64::MAX,
        ({
            let travel = travel_of(s, if leftward { Lane::Scroll } else { Lane::Reverse }, width as int);
            &&& travel is Some
            &&& lasting(s.frame_secs, frames) == travel
            &&& lasting(s.frame_secs, frames + 1) != travel
        }),
    ensures
        leftward ==> moved_on(
            entry_column(s, Lane::Scroll, width as int),
            Direction::ToLeft,
            s.speed as int,
            frames,
        ) + width <= 0,
        !leftward ==> moved_on(
            entry_column(s, Lane::Reverse, width as int),
            Direction::ToRight,
            s.speed as int,
            frames,
        ) >= s.video_width,
{
    let n = frames_to_cross(s, width as int);
    let v = s.speed as int;
    lemma_frames_cross(s, width as int);
    if frames < n {
        lemma_lasting_between(s.frame_secs, frames, frames + 1, n as nat);
    }
    assert(frames * v >= n * v) by (nonlinear_arith)
        requires
            frames >= n,
            v > 0,
    ;
    lemma_moved_on(entry_column(s, Lane::Scroll, width as int), Direction::ToLeft, v, frames);
    lemma_moved_on(entry_column(s, Lane::Reverse, width as int), Direction::ToRight, v, frames);
}

/// A danmaku that scrolls is not shown on when it has left the frame: one frame before as many as
/// last as long as it is shown, it has not yet crossed.
pub proof fn law_not_shown_beyond_crossing(s: Settings, width: u32, frames: nat, leftward: bool)
    requires
        s.speed > 0,
        width + s.video_width <= u32::MAX,
        0 < frames <= u64::MAX,
        ({
            let travel = travel_of(s, if leftward { Lane::Scroll } else { Lane::Reverse }, width as int);
            &&& travel is Some
            &&& lasting(s.frame_secs, frames) == travel
            &&& lasting(s.frame_secs, (frames - 1) as nat) != travel
        }),
    ensures
        leftward ==> moved_on(
            entry_column(s, Lane::Scroll, width as int),
            Direction::ToLeft,
            s.speed as int,
            (frames - 1) as nat,
        ) + width > 0,
        !leftward ==> moved_on(
            entry_column(s, Lane::Reverse, width as int),
            Direction::ToRight,
            s.speed as int,
            (frames - 1) as nat,
        ) < s.video_width,
{
    let n = frames_to_cross(s, width as int);
    let v = s.speed as int;
    let k = (frames - 1) as nat;
    lemma_frames_cross(s, width as int);
    if n <= k {
        lemma_lasting_between(s.frame_secs, n as nat, k, frames);
    }
    assert(k * v <= (n - 1) * v) by (nonlinear_arith)
        requires
            k <= n - 1,
            v > 0,
    ;
    lemma_moved_on(entry_column(s, Lane::Scroll, width as int), Direction::ToLeft, v, k);
    lemma_moved_on(entry_column(s, Lane::Reverse, width as int), Direction::ToRight, v, k);
}

/// Danmaku of the same width are shown for the same time, whichever way they scroll, and all fixed
/// ones are, whichever their width.
pub proof fn law_lanes_agree_on_time(s: Settings, width: int, other: int)
    ensures
        travel_of(s, Lane::Scroll, width) == travel_of(s, Lane::Reverse, width),
        travel_of(s, Lane::Top, width) == travel_of(s, Lane::Bottom, other),
        travel_of(s, Lane::Top, width) == s.fixed_travel,
{
}

/// A danmaku enters just outside of the frame if it scrolls, so that its first move brings it into
/// view; a fixed one stands as far from the left edge as from the right, to within one column. It
/// has no row yet, has its whole time on screen before it, and looks like its sprite.
pub proof fn law_enters_at_the_edge(
    s: Settings,
    lane: Lane,
    font_size: int,
    sprite: RgbaImage,
    now: Duration,
)
    requires
        travel_of(s, lane, sprite.width as int) is Some,
        now.nanos + travel_of(s, lane, sprite.width as int)->0.nanos <= u128::MAX,
    ensures
        ({
            let comp = entering(s, lane, font_size, sprite, now);
            let left = comp.x as int;
            let right = s.video_width - (comp.x + sprite.width);
            &&& lane is Scroll ==> left == s.video_width
            &&& lane is Reverse ==> left + sprite.width == 0
            &&& lane is Top || lane is Bottom ==> -1 <= left - right <= 1
            &&& comp.y is None
            &&& comp.width == sprite.width
            &&& comp.cached_text == Some(sprite)
            &&& comp.dead_line.nanos == now.nanos + comp.travel.nanos
            &&& Some(comp.travel) == travel_of(s, lane, sprite.width as int)
        }),
{
}

/// Danmaku that scroll do so in lanes of their own, those fixed at the bottom share theirs with the
/// scripted ones, and only the advanced are not shown.
pub proof fn law_modes_have_their_lanes(mode: ModeView)
    ensures
        lane_of(mode) == Some(Lane::Scroll) <==> mode is Scroll,
        lane_of(mode) == Some(Lane::Reverse) <==> mode is Reverse,
        lane_of(mode) == Some(Lane::Top) <==> mode is Top,
        lane_of(mode) == Some(Lane::Bottom) <==> mode is Bottom || mode is Bas,
        lane_of(mode) is None <==> mode is Advance,
{
}

/// A video that is extended until a danmaku is gone is extended by the time for which the stage
/// shows it: `shown`, added to its own time, is when it is gone, and is the span for which it stays
/// in its lane. A danmaku without a lane is gone when it comes.
pub proof fn law_gone_when_the_stage_lets_it_go(
    d: DanmakuView,
    width: u32,
    s: Settings,
    fixed_secs: Double,
)
    requires
        s.fixed_travel == span_of(fixed_secs),
    ensures
        ({
            let gone = gone_at(
                d,
                width as int,
                s.video_width as int,
                s.speed as int,
                s.frame_secs,
                fixed_secs,
            );
            match lane_of(d.mode) {
                Some(lane) => exists|shown: Double| #[trigger]
                    span_of(shown) == travel_of(s, lane, width as int) && gone == sum(
                        secs_of(d.time),
                        shown,
                    ),
                None => gone == secs_of(d.time),
            }
        }),
{
    let shown = match lane_of(d.mode) {
        Some(Lane::Scroll) => product(
            of_whole(ceil_div(width + s.video_width, s.speed as int) as nat),
            s.frame_secs,
        ),
        Some(Lane::Reverse) => product(
            of_whole(ceil_div(width + s.video_width, s.speed as int) as nat),
            s.frame_secs,
        ),
        _ => fixed_secs,
    };
    assert(lane_of(d.mode) is Some ==> span_of(shown) == travel_of(
        s,
        lane_of(d.mode)->0,
        width as int,
    ));
    let gone = gone_at(
        d,
        width as int,
        s.video_width as int,
        s.speed as int,
        s.frame_secs,
        fixed_secs,
    );
    assert(lane_of(d.mode) is Some ==> gone == sum(secs_of(d.time), shown));
}

/// A span lies within half a nanosecond of the number of seconds that it is made of.
pub proof fn law_span_is_nearest(secs: Double)
    requires
        span_of(secs) is Some,
    ensures
        2 * (secs.value() * 1_000_000_000 - span_of(secs)->0.nanos * unit()) <= unit(),
        2 * (span_of(secs)->0.nanos * unit() - secs.value() * 1_000_000_000) <= unit(),
{
    let u = unit() as int;
    let n = secs.value() * 1_000_000_000;
    lemma_span_nanos(secs);
    lemma_pow2_pos(1074);
    lemma_fundamental_div_mod(n, u);
    lemma_mod_bound(n, u);
    let q = n / u;
    assert(u * q == q * u) by (nonlinear_arith);
    assert((q + 1) * u == q * u + u) by (nonlinear_arith);
}

/// The frame once every danmaku of the first `k` slots that has a place is laid on it, in the order of
/// the slots: its left edge at its column, its upper edge at its row below the top of the area, both
/// taken in 32 bits.
pub open spec fn with_all_placed(frame: Frame, slots: Seq<Slot>, p: DrawParams, k: nat) -> Frame
    decreases k,
{
    if k == 0 {
        frame
    } else {
        let before = with_all_placed(frame, slots, p, (k - 1) as nat);
        match slots[k - 1] {
            Some((_, comp)) => match comp.y {
                Some(y) => laid_on(
                    before,
                    comp.cached_text->0,
                    (comp.x as i32) as int,
                    ((y + p.area_top) as i32) as int,
                    p.o256 as int,
                ),
                None => before,
            },
            None => before,
        }
    }
}

/// A frame shows every danmaku that has a place after it, those included that have only just found
/// one, and nothing else.
pub proof fn law_everything_placed_is_drawn(
    frame: Frame,
    slots: Seq<Slot>,
    p: DrawParams,
    rule: Placement,
)
    requires
        p.wf(),
    ensures
        ({
            let v = verdicts(slots, p, rule, slots.len());
            painted(frame, slots, p, v, slots.len()) == with_all_placed(
                frame,
                settled(slots, v),
                p,
                slots.len(),
            )
        }),
{
    lemma_placed_is_drawn(frame, slots, p, rule, slots.len());
}

proof fn lemma_placed_is_drawn(
    frame: Frame,
    slots: Seq<Slot>,
    p: DrawParams,
    rule: Placement,
    k: nat,
)
    requires
        p.wf(),
        k <= slots.len(),
    ensures
        ({
            let v = verdicts(slots, p, rule, slots.len());
            painted(frame, slots, p, v, k) == with_all_placed(frame, settled(slots, v), p, k)
        }),
    decreases k,
{
    if k > 0 {
        let v = verdicts(slots, p, rule, slots.len());
        lemma_placed_is_drawn(frame, slots, p, rule, (k - 1) as nat);
        lemma_settled_at(slots, p, rule, k - 1);
        crate::layout_laws::lemma_verdict_at(slots, p, rule, (k - 1) as nat, slots.len());
        let after = settled(slots, v);
        assert(after[k - 1] is Some ==> comp_of(after[k - 1]).cached_text == comp_of(
            slots[k - 1],
        ).cached_text);
    }
}

/// A frame shows what scrolls to the left, then what scrolls to the right, then what is fixed at the
/// top, then what is fixed at the bottom: all that has a place after it and before it moves on, and
/// nothing else.
pub proof fn law_frame_shows_all_lanes(scene: Scene, frame: Frame, s: Settings, now: Duration)
    requires
        s.wf(),
    ensures
        ({
            let p = s.params(now);
            let placed = |lane: Lane, rule: Placement|
                settled(
                    after_burial(scene.lane(lane), now),
                    verdicts(
                        after_burial(scene.lane(lane), now),
                        p,
                        rule,
                        scene.lane(lane).len(),
                    ),
                );
            let left = placed(Lane::Scroll, Placement::Scroll { dir: Direction::ToLeft });
            let right = placed(Lane::Reverse, Placement::Scroll { dir: Direction::ToRight });
            let top = placed(Lane::Top, Placement::Fixed { from_bottom: false });
            let bottom = placed(Lane::Bottom, Placement::Fixed { from_bottom: true });
            scene.shown_on(frame, s, now) == with_all_placed(
                with_all_placed(
                    with_all_placed(
                        with_all_placed(frame, left, p, left.len()),
                        right,
                        p,
                        right.len(),
                    ),
                    top,
                    p,
                    top.len(),
                ),
                bottom,
                p,
                bottom.len(),
            )
        }),
{
    let p = s.params(now);
    let b = scene.buried(now);
    let f1 = crate::stage::after_drawing(frame, b.scroll, p, crate::stage::to_left());
    let f2 = crate::stage::after_drawing(f1, b.reverse, p, crate::stage::to_right());
    let f3 = crate::stage::after_drawing(f2, b.top, p, crate::stage::at_top());
    assert(p.wf());
    law_everything_placed_is_drawn(frame, b.scroll, p, crate::stage::to_left());
    law_everything_placed_is_drawn(f1, b.reverse, p, crate::stage::to_right());
    law_everything_placed_is_drawn(f2, b.top, p, crate::stage::at_top());
    law_everything_placed_is_drawn(f3, b.bottom, p, crate::stage::at_bottom());
}

/// A danmaku whose time has come enters its lane wherever the lane can hold one more and what is
/// computed of it can be held, however wide or tall it is; one without a lane is not shown.
pub proof fn law_who_fits_enters(
    s: Settings,
    scene: Scene,
    danmaku: Danmaku,
    sprite: RgbaImage,
    now: Duration,
    lane: Lane,
    travel: Duration,
)
    requires
        lane_of(danmaku.mode@) == Some(lane),
        sprite.wf(),
        sprite.width + s.video_width <= u32::MAX,
        s.ink_ref * danmaku.font_size <= u64::MAX,
        crate::layout::RAIL_OFFSET + rails_needed(
            s.ink_ref as int,
            s.base_pitch as int,
            danmaku.font_size as int,
        ) <= usize::MAX,
        travel_of(s, lane, sprite.width as int) == Some(travel),
        now.nanos + travel.nanos <= MAX_NANOS,
        scene.lane(lane).len() < usize::MAX,
    ensures
        reception_of(s, scene, danmaku, sprite, now) is Entered,
{
}

} // verus!
