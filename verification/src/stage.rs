//! The danmaku on screen, from frame to frame.

use crate::arith::{
    is_infinite, law_whole_is_amount, lemma_infinite_size, lemma_zero_rounds, of_whole, product, size,
};
use crate::danmaku::{Danmaku, DanmakuMode, ModeView};
use crate::double::{lemma_magnitudes_ordered, truncated, unit, Double};
use crate::duration::{span_of, Duration, MAX_NANOS};
use crate::growable::{first_vacant, put_at, GrowableVec};
use crate::layout::{
    buried, ceil_div, comp_of, compute_n_rails, del_dead, draw_fixed_danmakus, draw_scroll_danmakus,
    last_start, moved, painted, rails_needed, scroll_slots, scrolled, settled, verdicts, Direction,
    DrawParams, NormalComponent, Placement, Slot, RAIL_OFFSET,
};
use crate::layout_laws::{
    columns_apart, gaps_kept, law_burying_is_safe, law_fixed_never_collide, law_moving_keeps_gaps,
    law_placed_on_free_rails, law_scrolling_never_collide, law_waiting_is_safe, lemma_list_on_rails,
    lemma_settled_at, rails_disjoint, rows_disjoint,
};
use crate::options::{
    law_checked_options_are_usable, one, render_fault, zero, RenderFiles, RenderOptions,
};
use crate::raster::{
    count_256ths, law_opacity_fits, opacity_256ths, Frame, RgbImage, RgbaImage,
};
use crate::rounding::lemma_magnitude_monotone;
use vstd::arithmetic::div_mod::*;
use vstd::arithmetic::power2::lemma_pow2_pos;
use vstd::prelude::*;

verus! {

/// The numbers that a whole video is rendered by.
#[derive(Clone, Copy, Debug)]
pub struct Settings {
    pub video_width: u32,
    /// The first row of the danmaku area.
    pub area_top: u32,
    /// The height of one rail.
    pub base_pitch: u32,
    /// How many rails there are.
    pub rail_cnt: u32,
    /// The height of the ink at the standard font size.
    pub ink_ref: u32,
    /// The opacity of all danmaku, in 256ths.
    pub o256: u32,
    /// The least gap between two scrolling danmaku on one rail.
    pub min_space: u32,
    /// How many columns a scrolling danmaku moves in a frame.
    pub speed: u32,
    /// How long a fixed danmaku is shown, if that can be held.
    pub fixed_travel: Option<Duration>,
    /// How long a frame is shown, in seconds.
    pub frame_secs: Double,
}

impl Settings {
    /// The danmaku move, rails are of some height, and what they are counted by can be held.
    pub open spec fn wf(self) -> bool {
        &&& self.base_pitch > 0
        &&& self.o256 <= 256
        &&& self.speed > 0
        &&& self.area_top + self.rail_cnt * self.base_pitch <= u32::MAX
        &&& RAIL_OFFSET + self.rail_cnt <= usize::MAX
    }

    /// The numbers for one frame.
    pub open spec fn params(self, now: Duration) -> DrawParams {
        DrawParams {
            base_pitch: self.base_pitch,
            rail_cnt: self.rail_cnt,
            area_top: self.area_top as i64,
            o256: self.o256,
            min_space: self.min_space as i64,
            now,
        }
    }

    /// Whether the numbers can be rendered by.
    pub fn is_valid(&self) -> (b: bool)
        ensures
            b == self.wf(),
    {
        assert(self.rail_cnt * self.base_pitch <= u32::MAX * u32::MAX) by (nonlinear_arith)
            requires
                self.rail_cnt <= u32::MAX,
                self.base_pitch <= u32::MAX,
        ;
        let below: u64 = self.rail_cnt as u64 * self.base_pitch as u64;
        self.base_pitch > 0 && self.o256 <= 256 && self.speed > 0 && below <= 0xffff_ffff
            && self.area_top as u64 + below <= 0xffff_ffff && self.rail_cnt as usize <= usize::MAX
            - RAIL_OFFSET
    }

    /// The numbers for one frame.
    pub fn frame_params(&self, now: Duration) -> (p: DrawParams)
        ensures
            p == self.params(now),
    {
        DrawParams {
            base_pitch: self.base_pitch,
            rail_cnt: self.rail_cnt,
            area_top: self.area_top as i64,
            o256: self.o256,
            min_space: self.min_space as i64,
            now,
        }
    }
}

/// The list of danmaku that a mode belongs to.
#[derive(Clone, Copy, Debug, PartialEq, Eq, Structural)]
pub enum Lane {
    Scroll,
    Reverse,
    Top,
    Bottom,
}

/// The lane of a mode: scripted danmaku stand at the bottom, and advanced ones have none.
pub open spec fn lane_of(mode: ModeView) -> Option<Lane> {
    match mode {
        ModeView::Scroll => Some(Lane::Scroll),
        ModeView::Reverse => Some(Lane::Reverse),
        ModeView::Top => Some(Lane::Top),
        ModeView::Bottom | ModeView::Bas => Some(Lane::Bottom),
        ModeView::Advance { .. } => None,
    }
}

/// The lane of a mode.
pub fn lane_for(mode: &DanmakuMode) -> (lane: Option<Lane>)
    ensures
        lane == lane_of(mode@),
{
    match mode {
        DanmakuMode::Scroll => Some(Lane::Scroll),
        DanmakuMode::Reverse => Some(Lane::Reverse),
        DanmakuMode::Top => Some(Lane::Top),
        DanmakuMode::Bottom | DanmakuMode::Bas => Some(Lane::Bottom),
        DanmakuMode::Advance { .. } => None,
    }
}

/// How many frames a danmaku `width` columns wide takes to cross the video.
pub open spec fn frames_to_cross(s: Settings, width: int) -> int {
    ceil_div(width + s.video_width, s.speed as int)
}

/// How long a danmaku `width` columns wide is shown.
pub open spec fn travel_of(s: Settings, lane: Lane, width: int) -> Option<Duration> {
    match lane {
        Lane::Scroll | Lane::Reverse => span_of(
            product(of_whole(frames_to_cross(s, width) as nat), s.frame_secs),
        ),
        Lane::Top | Lane::Bottom => s.fixed_travel,
    }
}

/// The column at which a danmaku `width` columns wide enters.
pub open spec fn entry_column(s: Settings, lane: Lane, width: int) -> int {
    match lane {
        Lane::Scroll => s.video_width as int,
        Lane::Reverse => -width,
        Lane::Top | Lane::Bottom => s.video_width as int / 2 - width / 2,
    }
}

/// A danmaku that enters its lane at `now`.
pub open spec fn entering(
    s: Settings,
    lane: Lane,
    font_size: int,
    sprite: RgbaImage,
    now: Duration,
) -> NormalComponent {
    let travel = travel_of(s, lane, sprite.width as int)->0;
    NormalComponent {
        x: entry_column(s, lane, sprite.width as int) as i64,
        y: None,
        width: sprite.width,
        n_rails: rails_needed(s.ink_ref as int, s.base_pitch as int, font_size) as u32,
        travel,
        dead_line: Duration { nanos: (now.nanos + travel.nanos) as u128 },
        cached_text: Some(sprite),
    }
}

/// A danmaku of the given font size and looks can enter a lane at `now`: what is computed of it can
/// be held.
pub open spec fn can_enter(
    s: Settings,
    lane: Lane,
    font_size: int,
    sprite: RgbaImage,
    now: Duration,
) -> bool {
    let travel = travel_of(s, lane, sprite.width as int);
    &&& sprite.wf()
    &&& sprite.width + s.video_width <= u32::MAX
    &&& s.ink_ref * font_size <= u64::MAX
    &&& RAIL_OFFSET + rails_needed(s.ink_ref as int, s.base_pitch as int, font_size) <= usize::MAX
    &&& travel is Some
    &&& now.nanos + travel->0.nanos <= MAX_NANOS
}

/// What becomes of a danmaku whose time has come.
#[derive(Clone, Copy, Debug, PartialEq, Eq, Structural)]
pub enum Reception {
    /// It has no lane, and is not shown.
    NoLane,
    /// What is computed of it cannot be held.
    Refused,
    /// It has entered its lane.
    Entered,
}

/// What becomes of a danmaku that comes to a scene at `now`.
pub open spec fn reception_of(
    s: Settings,
    scene: Scene,
    danmaku: Danmaku,
    sprite: RgbaImage,
    now: Duration,
) -> Reception {
    match lane_of(danmaku.mode@) {
        None => Reception::NoLane,
        Some(lane) => if can_enter(s, lane, danmaku.font_size as int, sprite, now) && scene.lane(
            lane,
        ).len() < usize::MAX {
            Reception::Entered
        } else {
            Reception::Refused
        },
    }
}

/// What is on screen: one list of danmaku for every lane.
pub struct Scene {
    pub scroll: Seq<Slot>,
    pub reverse: Seq<Slot>,
    pub top: Seq<Slot>,
    pub bottom: Seq<Slot>,
}

/// A danmaku has taken the first vacant place of its lane.
pub open spec fn has_entered(
    s: Settings,
    before: Scene,
    after: Scene,
    lane: Lane,
    danmaku: Danmaku,
    sprite: RgbaImage,
    now: Duration,
) -> bool {
    exists|index: int| #[trigger]
        first_vacant(before.lane(lane), index) && after == before.with_lane(
            lane,
            put_at(
                before.lane(lane),
                index,
                Some((danmaku, entering(s, lane, danmaku.font_size as int, sprite, now))),
            ),
        )
}

/// The danmaku on screen, or waiting for room.
pub struct Stage {
    settings: Settings,
    scroll: GrowableVec<Slot>,
    reverse: GrowableVec<Slot>,
    top: GrowableVec<Slot>,
    bottom: GrowableVec<Slot>,
}

impl View for Stage {
    type V = Scene;

    closed spec fn view(&self) -> Scene {
        Scene {
            scroll: self.scroll@,
            reverse: self.reverse@,
            top: self.top@,
            bottom: self.bottom@,
        }
    }
}

/// A danmaku on screen has been rendered and stands on whole rails.
pub open spec fn is_sound(s: Settings, comp: NormalComponent) -> bool {
    &&& comp.cached_text is Some
    &&& comp.cached_text->0.wf()
    &&& comp.cached_text->0.width == comp.width
    &&& match comp.y {
        None => RAIL_OFFSET + comp.n_rails <= usize::MAX,
        Some(y) => {
            let t = (y as int) / (s.base_pitch as int);
            &&& 0 <= y <= s.rail_cnt * s.base_pitch
            &&& (y as int) % (s.base_pitch as int) == 0
            &&& t + comp.n_rails <= u32::MAX + 1
            &&& RAIL_OFFSET + t + comp.n_rails <= usize::MAX
        },
    }
}

/// Every danmaku of a list is sound.
pub open spec fn all_sound(s: Settings, slots: Seq<Slot>) -> bool {
    forall|i: int|
        0 <= i < slots.len() && (#[trigger] slots[i]) is Some ==> is_sound(s, comp_of(slots[i]))
}

/// A danmaku can move on, and the columns that it keeps others away from can be held.
pub open spec fn is_movable(s: Settings, comp: NormalComponent) -> bool {
    &&& i64::MIN <= comp.x - s.speed
    &&& comp.x + s.speed <= i64::MAX
    &&& comp.x + comp.width + s.min_space <= i64::MAX
}

/// Every danmaku of a list can move on.
pub open spec fn all_movable(s: Settings, slots: Seq<Slot>) -> bool {
    forall|i: int|
        0 <= i < slots.len() && (#[trigger] slots[i]) is Some ==> is_movable(s, comp_of(slots[i]))
}

/// A list without the danmaku that are gone at `now`.
pub open spec fn after_burial(slots: Seq<Slot>, now: Duration) -> Seq<Slot> {
    slots.map_values(|slot: Slot| buried(slot, now))
}

/// A list after its danmaku have looked for room.
pub open spec fn after_placing(slots: Seq<Slot>, p: DrawParams, rule: Placement) -> Seq<Slot> {
    settled(slots, verdicts(slots, p, rule, slots.len()))
}

/// The frame after the danmaku of a list have been drawn.
pub open spec fn after_drawing(
    frame: Frame,
    slots: Seq<Slot>,
    p: DrawParams,
    rule: Placement,
) -> Frame {
    painted(frame, slots, p, verdicts(slots, p, rule, slots.len()), slots.len())
}

/// A list after its danmaku have moved on.
pub open spec fn after_moving(slots: Seq<Slot>, direction: Direction, speed: int) -> Seq<Slot> {
    slots.map_values(|slot: Slot| scrolled(slot, direction, speed))
}

pub open spec fn to_left() -> Placement {
    Placement::Scroll { dir: Direction::ToLeft }
}

pub open spec fn to_right() -> Placement {
    Placement::Scroll { dir: Direction::ToRight }
}

pub open spec fn at_top() -> Placement {
    Placement::Fixed { from_bottom: false }
}

pub open spec fn at_bottom() -> Placement {
    Placement::Fixed { from_bottom: true }
}

impl Scene {
    pub open spec fn empty() -> Scene {
        Scene { scroll: Seq::empty(), reverse: Seq::empty(), top: Seq::empty(), bottom: Seq::empty() }
    }

    pub open spec fn lane(self, lane: Lane) -> Seq<Slot> {
        match lane {
            Lane::Scroll => self.scroll,
            Lane::Reverse => self.reverse,
            Lane::Top => self.top,
            Lane::Bottom => self.bottom,
        }
    }

    /// The scene with another list in a lane.
    pub open spec fn with_lane(self, lane: Lane, slots: Seq<Slot>) -> Scene {
        match lane {
            Lane::Scroll => Scene { scroll: slots, ..self },
            Lane::Reverse => Scene { reverse: slots, ..self },
            Lane::Top => Scene { top: slots, ..self },
            Lane::Bottom => Scene { bottom: slots, ..self },
        }
    }

    /// Everything on screen is sound.
    pub open spec fn sound(self, s: Settings) -> bool {
        &&& all_sound(s, self.scroll)
        &&& all_sound(s, self.reverse)
        &&& all_sound(s, self.top)
        &&& all_sound(s, self.bottom)
    }

    /// Everything on screen can move on.
    pub open spec fn movable(self, s: Settings) -> bool {
        &&& all_movable(s, self.scroll)
        &&& all_movable(s, self.reverse)
        &&& all_movable(s, self.top)
        &&& all_movable(s, self.bottom)
    }

    /// Nothing on screen collides: danmaku that scroll in one direction keep the least gap on every
    /// rail, and those fixed at one edge share no rail.
    pub open spec fn tidy(self, p: DrawParams) -> bool {
        &&& gaps_kept(self.scroll, p)
        &&& gaps_kept(self.reverse, p)
        &&& rails_disjoint(self.top, p)
        &&& rails_disjoint(self.bottom, p)
    }

    /// The scene without what is gone at `now`.
    pub open spec fn buried(self, now: Duration) -> Scene {
        Scene {
            scroll: after_burial(self.scroll, now),
            reverse: after_burial(self.reverse, now),
            top: after_burial(self.top, now),
            bottom: after_burial(self.bottom, now),
        }
    }

    /// The scene after the frame at `now`: what is gone is taken out, the rest looks for room, and
    /// what scrolls moves on.
    pub open spec fn next(self, s: Settings, now: Duration) -> Scene {
        let p = s.params(now);
        let b = self.buried(now);
        Scene {
            scroll: after_moving(
                after_placing(b.scroll, p, to_left()),
                Direction::ToLeft,
                s.speed as int,
            ),
            reverse: after_moving(
                after_placing(b.reverse, p, to_right()),
                Direction::ToRight,
                s.speed as int,
            ),
            top: after_placing(b.top, p, at_top()),
            bottom: after_placing(b.bottom, p, at_bottom()),
        }
    }

    /// What the frame at `now` shows: on the video first what scrolls to the left, then what scrolls
    /// to the right, then what is fixed at the top, then what is fixed at the bottom.
    pub open spec fn shown_on(self, frame: Frame, s: Settings, now: Duration) -> Frame {
        let p = s.params(now);
        let b = self.buried(now);
        let f1 = after_drawing(frame, b.scroll, p, to_left());
        let f2 = after_drawing(f1, b.reverse, p, to_right());
        let f3 = after_drawing(f2, b.top, p, at_top());
        after_drawing(f3, b.bottom, p, at_bottom())
    }
}

/// What is sound and can move on can be placed and drawn.
proof fn lemma_sound_is_accepted(s: Settings, slots: Seq<Slot>, now: Duration)
    requires
        s.wf(),
        all_sound(s, slots),
        all_movable(s, slots),
    ensures
        s.params(now).wf(),
        s.params(now).accepts_all(slots),
{
    let p = s.params(now);
    assert(s.rail_cnt * s.base_pitch >= 0) by (nonlinear_arith);
    assert forall|i: int| 0 <= i < slots.len() && (#[trigger] slots[i]) is Some implies p.accepts(
        comp_of(slots[i]),
    ) by {
        let comp = comp_of(slots[i]);
        assert(is_sound(s, comp));
        assert(is_movable(s, comp));
        if comp.y is None {
            assert forall|t: int| 0 <= t <= p.rail_cnt implies #[trigger] p.can_draw_on(comp, t) by {
                assert(0 <= t * p.base_pitch <= s.rail_cnt * s.base_pitch) by (nonlinear_arith)
                    requires
                        0 <= t <= s.rail_cnt,
                        p.base_pitch == s.base_pitch,
                ;
            }
        }
    }
}

/// Burying keeps a list sound.
proof fn lemma_burial_keeps(s: Settings, slots: Seq<Slot>, now: Duration)
    ensures
        all_sound(s, slots) ==> all_sound(s, after_burial(slots, now)),
{
    let after = after_burial(slots, now);
    assert forall|i: int| 0 <= i < after.len() && (#[trigger] after[i]) is Some implies after[i]
        == slots[i] && slots[i] is Some by {}
}

/// Placing keeps a list sound and able to move on.
proof fn lemma_placing_keeps(s: Settings, slots: Seq<Slot>, now: Duration, rule: Placement)
    requires
        s.wf(),
        all_sound(s, slots),
        all_movable(s, slots),
    ensures
        all_sound(s, after_placing(slots, s.params(now), rule)),
        all_movable(s, after_placing(slots, s.params(now), rule)),
{
    let p = s.params(now);
    lemma_sound_is_accepted(s, slots, now);
    let v = verdicts(slots, p, rule, slots.len());
    let after = after_placing(slots, p, rule);
    assert forall|i: int| 0 <= i < after.len() && (#[trigger] after[i]) is Some implies is_sound(
        s,
        comp_of(after[i]),
    ) && is_movable(s, comp_of(after[i])) by {
        lemma_settled_at(slots, p, rule, i);
        assert(slots[i] is Some);
        assert(is_sound(s, comp_of(slots[i])));
        if v[i] is Placed {
            law_placed_on_free_rails(slots, p, rule, i);
            let y = v[i]->Placed_y;
            let t = y / p.base_pitch as int;
            let n = comp_of(slots[i]).n_rails as int;
            assert(0 <= t <= last_start(n, p.rail_cnt as int));
            assert(0 <= t * p.base_pitch <= s.rail_cnt * s.base_pitch) by (nonlinear_arith)
                requires
                    0 <= t <= s.rail_cnt,
                    p.base_pitch == s.base_pitch,
            ;
            assert(t * p.base_pitch == p.base_pitch * t) by (nonlinear_arith);
            vstd::arithmetic::div_mod::lemma_mod_multiples_basic(t, p.base_pitch as int);
            let before = comp_of(slots[i]);
            let comp = comp_of(after[i]);
            assert(comp.cached_text == before.cached_text);
        }
    }
}

/// Moving keeps a list sound.
proof fn lemma_moving_keeps(s: Settings, slots: Seq<Slot>, direction: Direction, speed: int)
    requires
        all_sound(s, slots),
    ensures
        all_sound(s, after_moving(slots, direction, speed)),
{
    let after = after_moving(slots, direction, speed);
    assert forall|i: int| 0 <= i < after.len() && (#[trigger] after[i]) is Some implies is_sound(
        s,
        comp_of(after[i]),
    ) by {
        assert(after[i] == scrolled(slots[i], direction, speed));
        assert(slots[i] is Some);
        assert(is_sound(s, comp_of(slots[i])));
    }
}

/// From one frame to the next, nothing on screen ever collides.
pub proof fn law_scene_stays_tidy(scene: Scene, s: Settings, now: Duration)
    requires
        s.wf(),
        scene.sound(s),
        scene.buried(now).movable(s),
        scene.tidy(s.params(now)),
    ensures
        scene.next(s, now).tidy(s.params(now)),
{
    let p = s.params(now);
    let b = scene.buried(now);
    law_burying_is_safe(scene.scroll, p, now);
    law_burying_is_safe(scene.reverse, p, now);
    law_burying_is_safe(scene.top, p, now);
    law_burying_is_safe(scene.bottom, p, now);
    lemma_burial_keeps(s, scene.scroll, now);
    lemma_burial_keeps(s, scene.reverse, now);
    lemma_sound_is_accepted(s, b.scroll, now);
    law_scrolling_never_collide(b.scroll, p, Direction::ToLeft);
    law_scrolling_never_collide(b.reverse, p, Direction::ToRight);
    law_fixed_never_collide(b.top, p, false);
    law_fixed_never_collide(b.bottom, p, true);
    lemma_placing_keeps(s, b.scroll, now, to_left());
    lemma_placing_keeps(s, b.reverse, now, to_right());
    let left = after_placing(b.scroll, p, to_left());
    let right = after_placing(b.reverse, p, to_right());
    lemma_moves_fit(s, left, Direction::ToLeft);
    lemma_moves_fit(s, right, Direction::ToRight);
    law_moving_keeps_gaps(left, p, Direction::ToLeft, s.speed as int);
    law_moving_keeps_gaps(right, p, Direction::ToRight, s.speed as int);
}

/// The time of a frame does not matter to whether anything collides.
pub proof fn law_tidiness_is_timeless(scene: Scene, s: Settings, now: Duration, later: Duration)
    requires
        scene.tidy(s.params(now)),
    ensures
        scene.tidy(s.params(later)),
{
    let p = s.params(now);
    let q = s.params(later);
    assert forall|a: NormalComponent, b: NormalComponent|
        #[trigger] crate::layout_laws::share_rail(q, a, b) implies crate::layout_laws::share_rail(
        p,
        a,
        b,
    ) by {
        let r = choose|r: int|
            #[trigger] crate::layout::covers(q, a.y->0 as int, a.n_rails as int, r)
                && crate::layout::covers(q, b.y->0 as int, b.n_rails as int, r);
        assert(crate::layout::covers(p, a.y->0 as int, a.n_rails as int, r));
    }
}

/// Where what can move on moves to can be held.
proof fn lemma_moves_fit(s: Settings, slots: Seq<Slot>, direction: Direction)
    requires
        all_movable(s, slots),
    ensures
        forall|i: int|
            0 <= i < slots.len() && (#[trigger] slots[i]) is Some && comp_of(slots[i]).y is Some
                ==> i64::MIN <= moved(comp_of(slots[i]).x as int, direction, s.speed as int)
                <= i64::MAX,
{
    assert forall|i: int|
        0 <= i < slots.len() && (#[trigger] slots[i]) is Some && comp_of(slots[i]).y
            is Some implies i64::MIN <= moved(
        comp_of(slots[i]).x as int,
        direction,
        s.speed as int,
    ) <= i64::MAX by {
        assert(is_movable(s, comp_of(slots[i])));
    }
}

/// Whether every danmaku of a list that is not gone at `now` can move on.
fn check_movable(s: &Settings, slots: &GrowableVec<Slot>, now: Duration) -> (b: bool)
    ensures
        b == all_movable(*s, after_burial(slots@, now)),
{
    let ghost left = after_burial(slots@, now);
    let len: usize = slots.len();
    let mut i: usize = 0;
    while i < len
        invariant
            i <= len,
            len == slots@.len(),
            left == after_burial(slots@, now),
            forall|j: int|
                0 <= j < i && (#[trigger] left[j]) is Some ==> is_movable(*s, comp_of(left[j])),
        decreases len - i,
    {
        assert(left[i as int] == buried(slots@[i as int], now));
        if let Some((_, comp)) = &slots[i] {
            let speed: i64 = s.speed as i64;
            let reach: i64 = comp.width as i64 + s.min_space as i64;
            if comp.dead_line.nanos > now.nanos && (comp.x < i64::MIN + speed || comp.x > i64::MAX
                - speed || comp.x > i64::MAX - reach) {
                assert(!is_movable(*s, comp_of(left[i as int])));
                return false;
            }
        }
        i += 1;
    }
    true
}

/// How many frames a danmaku `width` columns wide takes to cross the video.
pub fn count_frames_to_cross(s: &Settings, width: u32) -> (n: u32)
    requires
        s.speed > 0,
        width + s.video_width <= u32::MAX,
    ensures
        n == frames_to_cross(*s, width as int),
{
    let way: u32 = width + s.video_width;
    let q: u32 = way / s.speed;
    let r: u32 = way % s.speed;
    if r == 0 {
        q
    } else {
        assert(q < u32::MAX) by (nonlinear_arith)
            requires
                q == way / s.speed,
                r == way % s.speed,
                r != 0,
                s.speed > 0,
                way <= u32::MAX,
        ;
        q + 1
    }
}

/// How long a danmaku `width` columns wide is shown.
pub fn travel_for(s: &Settings, lane: Lane, width: u32) -> (travel: Option<Duration>)
    requires
        s.speed > 0,
        width + s.video_width <= u32::MAX,
    ensures
        travel == travel_of(*s, lane, width as int),
{
    match lane {
        Lane::Scroll | Lane::Reverse => {
            let frames: u32 = count_frames_to_cross(s, width);
            Duration::try_from_secs(Double::from_u64(frames as u64).times(s.frame_secs))
        },
        Lane::Top | Lane::Bottom => s.fixed_travel,
    }
}

impl Stage {
    /// The numbers that the video is rendered by.
    pub closed spec fn spec_settings(&self) -> Settings {
        self.settings
    }

    /// The numbers can be rendered by, and everything on screen is sound.
    pub open spec fn wf(&self) -> bool {
        self.spec_settings().wf() && self@.sound(self.spec_settings())
    }

    /// An empty screen.
    pub fn new(settings: Settings) -> (stage: Stage)
        requires
            settings.wf(),
        ensures
            stage.wf(),
            stage.spec_settings() == settings,
            stage@ == Scene::empty(),
            forall|now: Duration| stage@.tidy(#[trigger] settings.params(now)),
    {
        Stage {
            settings,
            scroll: GrowableVec::new(None),
            reverse: GrowableVec::new(None),
            top: GrowableVec::new(None),
            bottom: GrowableVec::new(None),
        }
    }

    /// Whether a danmaku of the given font size and looks can enter a lane at `now`.
    pub fn admits(&self, lane: Lane, font_size: usize, sprite: &RgbaImage, now: Duration) -> (b: bool)
        requires
            self.wf(),
            sprite.wf(),
        ensures
            b == (can_enter(self.spec_settings(), lane, font_size as int, *sprite, now)
                && self@.lane(lane).len() < usize::MAX),
    {
        let s = &self.settings;
        if sprite.width as u64 + s.video_width as u64 > 0xffff_ffff {
            return false;
        }
        assert(s.ink_ref * font_size <= u32::MAX * usize::MAX) by (nonlinear_arith)
            requires
                s.ink_ref <= u32::MAX,
                font_size <= usize::MAX,
        ;
        if s.ink_ref as u128 * font_size as u128 > 0xffff_ffff_ffff_ffff {
            return false;
        }
        let n_rails: u32 = compute_n_rails(s.ink_ref, s.base_pitch, font_size);
        if n_rails as usize > usize::MAX - RAIL_OFFSET {
            return false;
        }
        let travel = match travel_for(s, lane, sprite.width) {
            Some(travel) => travel,
            None => {
                return false;
            },
        };
        if now.nanos > MAX_NANOS || travel.nanos > MAX_NANOS - now.nanos {
            return false;
        }
        let len: usize = match lane {
            Lane::Scroll => self.scroll.len(),
            Lane::Reverse => self.reverse.len(),
            Lane::Top => self.top.len(),
            Lane::Bottom => self.bottom.len(),
        };
        len < usize::MAX
    }

    /// Lets a danmaku enter a lane at `now`: it takes the first place in its list that is vacant,
    /// and has no room on screen yet.
    pub fn enqueue(&mut self, lane: Lane, danmaku: Danmaku, sprite: RgbaImage, now: Duration)
        requires
            old(self).wf(),
            can_enter(
                old(self).spec_settings(),
                lane,
                danmaku.font_size as int,
                sprite,
                now,
            ),
            old(self)@.lane(lane).len() < usize::MAX,
        ensures
            final(self).wf(),
            final(self).spec_settings() == old(self).spec_settings(),
            has_entered(
                old(self).spec_settings(),
                old(self)@,
                final(self)@,
                lane,
                danmaku,
                sprite,
                now,
            ),
            forall|p: DrawParams| old(self)@.tidy(p) ==> #[trigger] final(self)@.tidy(p),
    {
        let ghost s = self.settings;
        let ghost before = self@;
        let width: u32 = sprite.width;
        let n_rails: u32 = compute_n_rails(
            self.settings.ink_ref,
            self.settings.base_pitch,
            danmaku.font_size,
        );
        let travel = match travel_for(&self.settings, lane, width) {
            Some(travel) => travel,
            None => Duration::zero(),
        };
        let dead_line = now.plus(travel);
        let x: i64 = match lane {
            Lane::Scroll => self.settings.video_width as i64,
            Lane::Reverse => -(width as i64),
            Lane::Top | Lane::Bottom => self.settings.video_width as i64 / 2 - width as i64 / 2,
        };
        let comp = NormalComponent {
            x,
            y: None,
            width,
            n_rails,
            travel,
            dead_line,
            cached_text: Some(sprite),
        };
        assert(comp == entering(s, lane, danmaku.font_size as int, sprite, now));
        let ghost slot: Slot = Some((danmaku, comp));
        match lane {
            Lane::Scroll => {
                let _ = self.scroll.set_first_empty((danmaku, comp));
            },
            Lane::Reverse => {
                let _ = self.reverse.set_first_empty((danmaku, comp));
            },
            Lane::Top => {
                let _ = self.top.set_first_empty((danmaku, comp));
            },
            Lane::Bottom => {
                let _ = self.bottom.set_first_empty((danmaku, comp));
            },
        }
        proof {
            let list = before.lane(lane);
            let after = self@.lane(lane);
            let index = choose|index: int|
                {
                    &&& #[trigger] first_vacant(list, index)
                    &&& after == put_at(list, index, slot)
                };
            assert(first_vacant(list, index) && after == put_at(list, index, slot));
            assert(self@ == before.with_lane(lane, put_at(list, index, slot)));
            assert forall|i: int| 0 <= i < after.len() && i != index implies #[trigger] after[i]
                == list[i] by {}
            assert(after[index] == slot);
            assert(is_sound(s, comp));
            assert(all_sound(s, after));
            assert forall|p: DrawParams| before.tidy(p) implies #[trigger] self@.tidy(p) by {
                law_waiting_is_safe(list, p, index, slot);
            }
        }
    }

    /// Lets a danmaku enter the lane of its mode at `now`, if it has one and can enter it.
    pub fn receive(&mut self, danmaku: Danmaku, sprite: RgbaImage, now: Duration) -> (r: Reception)
        requires
            old(self).wf(),
            sprite.wf(),
        ensures
            final(self).wf(),
            final(self).spec_settings() == old(self).spec_settings(),
            r == reception_of(old(self).spec_settings(), old(self)@, danmaku, sprite, now),
            r is Entered ==> has_entered(
                old(self).spec_settings(),
                old(self)@,
                final(self)@,
                lane_of(danmaku.mode@)->0,
                danmaku,
                sprite,
                now,
            ),
            !(r is Entered) ==> final(self)@ == old(self)@,
            forall|p: DrawParams| old(self)@.tidy(p) ==> #[trigger] final(self)@.tidy(p),
    {
        let lane = match lane_for(&danmaku.mode) {
            Some(lane) => lane,
            None => {
                return Reception::NoLane;
            },
        };
        if !self.admits(lane, danmaku.font_size, &sprite, now) {
            return Reception::Refused;
        }
        self.enqueue(lane, danmaku, sprite, now);
        Reception::Entered
    }

    /// Renders the frame at `now`, if everything that is not gone by then can move on.
    pub fn try_render(&mut self, image: &mut RgbImage, now: Duration) -> (done: bool)
        requires
            old(self).wf(),
            old(image).wf(),
        ensures
            final(self).wf(),
            final(self).spec_settings() == old(self).spec_settings(),
            final(image).wf(),
            done == old(self)@.buried(now).movable(old(self).spec_settings()),
            final(self)@ == if done {
                old(self)@.next(old(self).spec_settings(), now)
            } else {
                old(self)@
            },
            final(image)@ == if done {
                old(self)@.shown_on(old(image)@, old(self).spec_settings(), now)
            } else {
                old(image)@
            },
            forall|t: Duration|
                old(self)@.tidy(#[trigger] old(self).spec_settings().params(t))
                    ==> final(self)@.tidy(old(self).spec_settings().params(t)),
    {
        if !self.can_render(now) {
            return false;
        }
        self.render(image, now);
        true
    }

    /// Whether everything on screen that is not gone at `now` can move on.
    pub fn can_render(&self, now: Duration) -> (b: bool)
        ensures
            b == self@.buried(now).movable(self.spec_settings()),
    {
        let s = &self.settings;
        check_movable(s, &self.scroll, now) && check_movable(s, &self.reverse, now)
            && check_movable(s, &self.top, now) && check_movable(s, &self.bottom, now)
    }

    /// Renders the frame at `now`: takes out what is gone, finds room for what waits, draws what has
    /// room, and moves what scrolls.
    pub fn render(&mut self, image: &mut RgbImage, now: Duration)
        requires
            old(self).wf(),
            old(self)@.buried(now).movable(old(self).spec_settings()),
            old(image).wf(),
        ensures
            final(self).wf(),
            final(self).spec_settings() == old(self).spec_settings(),
            final(image).wf(),
            final(self)@ == old(self)@.next(old(self).spec_settings(), now),
            final(image)@ == old(self)@.shown_on(old(image)@, old(self).spec_settings(), now),
            forall|t: Duration|
                old(self)@.tidy(#[trigger] old(self).spec_settings().params(t))
                    ==> final(self)@.tidy(old(self).spec_settings().params(t)),
    {
        let ghost s = self.settings;
        let ghost scene = self@;
        let ghost b = scene.buried(now);
        proof {
            lemma_burial_keeps(s, scene.scroll, now);
            lemma_burial_keeps(s, scene.reverse, now);
            lemma_burial_keeps(s, scene.top, now);
            lemma_burial_keeps(s, scene.bottom, now);
            lemma_sound_is_accepted(s, b.scroll, now);
            lemma_sound_is_accepted(s, b.reverse, now);
            lemma_sound_is_accepted(s, b.top, now);
            lemma_sound_is_accepted(s, b.bottom, now);
            lemma_placing_keeps(s, b.scroll, now, to_left());
            lemma_placing_keeps(s, b.reverse, now, to_right());
            lemma_placing_keeps(s, b.top, now, at_top());
            lemma_placing_keeps(s, b.bottom, now, at_bottom());
        }
        del_dead(&mut self.scroll, now);
        del_dead(&mut self.reverse, now);
        del_dead(&mut self.top, now);
        del_dead(&mut self.bottom, now);
        let params = self.settings.frame_params(now);
        draw_scroll_danmakus(image, &params, &mut self.scroll, Direction::ToLeft);
        draw_scroll_danmakus(image, &params, &mut self.reverse, Direction::ToRight);
        proof {
            lemma_moves_fit(s, self.scroll@, Direction::ToLeft);
            lemma_moves_fit(s, self.reverse@, Direction::ToRight);
            lemma_moving_keeps(s, self.scroll@, Direction::ToLeft, s.speed as int);
            lemma_moving_keeps(s, self.reverse@, Direction::ToRight, s.speed as int);
        }
        scroll_slots(&mut self.scroll, Direction::ToLeft, self.settings.speed);
        scroll_slots(&mut self.reverse, Direction::ToRight, self.settings.speed);
        draw_fixed_danmakus(image, &params, &mut self.top, false);
        draw_fixed_danmakus(image, &params, &mut self.bottom, true);
        proof {
            assert forall|t: Duration|
                scene.tidy(#[trigger] s.params(t)) implies self@.tidy(s.params(t)) by {
                law_tidiness_is_timeless(scene, s, t, now);
                law_scene_stays_tidy(scene, s, now);
                law_tidiness_is_timeless(self@, s, now, t);
            }
        }
    }
}

/// The row that lies at a given part of the height of the video.
pub open spec fn row_at(video_height: u32, ratio: Double) -> int {
    let n = truncated(product(of_whole(video_height as nat), ratio));
    if n > u32::MAX {
        u32::MAX as int
    } else {
        n
    }
}

/// Finds the row that lies at a given part of the height of the video.
fn find_row(video_height: u32, ratio: Double) -> (row: u32)
    ensures
        row == row_at(video_height, ratio),
{
    let n: u64 = Double::from_u64(video_height as u64).times(ratio).to_u64_saturating();
    if n > 0xffff_ffff {
        0xffff_ffff
    } else {
        n as u32
    }
}

/// A part of the height that is not positive lies at the first row.
proof fn lemma_first_row(video_height: u32, ratio: Double)
    requires
        !ratio.spec_is_nan(),
        ratio.value() <= 0,
    ensures
        row_at(video_height, ratio) == 0,
{
    let h = of_whole(video_height as nat);
    let u = unit();
    law_whole_is_amount(video_height as nat);
    lemma_pow2_pos(1074);
    lemma_magnitudes_ordered(ratio.magnitude(), 0);
    lemma_magnitudes_ordered(h.magnitude(), 0);
    if !ratio.negative_sign() {
        assert(size(h) * size(ratio) == 0) by (nonlinear_arith)
            requires
                size(ratio) == 0,
        ;
        lemma_zero_rounds(u);
    } else {
        lemma_magnitude_monotone(0, size(h) * size(ratio), u);
    }
    assert(truncated(product(h, ratio)) == 0);
}

/// A greater positive part of the height lies at no lesser row.
proof fn lemma_later_row(video_height: u32, top: Double, bottom: Double)
    requires
        top.below(bottom),
        top.value() > 0,
    ensures
        row_at(video_height, top) <= row_at(video_height, bottom),
{
    let h = of_whole(video_height as nat);
    let a = product(h, top);
    let b = product(h, bottom);
    let u = unit();
    law_whole_is_amount(video_height as nat);
    lemma_pow2_pos(1074);
    lemma_magnitudes_ordered(top.magnitude(), bottom.magnitude());
    let m = size(h) * size(top);
    let n = size(h) * size(bottom);
    assert(m <= n) by (nonlinear_arith)
        requires
            m == size(h) * size(top),
            n == size(h) * size(bottom),
            size(top) <= size(bottom),
    ;
    lemma_magnitude_monotone(m, n, u);
    if is_infinite(bottom) {
        if h.magnitude() == 0 {
            assert(m == 0) by (nonlinear_arith)
                requires
                    m == size(h) * size(top),
                    size(h) == 0,
            ;
            lemma_zero_rounds(u);
        } else {
            lemma_infinite_size();
        }
    } else {
        lemma_magnitudes_ordered(a.magnitude(), b.magnitude());
        lemma_div_is_ordered(a.value(), b.value(), u as int);
    }
}

/// A greater part of the height lies at no lesser row.
pub proof fn law_rows_in_order(video_height: u32, top: Double, bottom: Double)
    requires
        top.below(bottom),
    ensures
        row_at(video_height, top) <= row_at(video_height, bottom),
{
    if top.value() <= 0 {
        lemma_first_row(video_height, top);
        lemma_row_is_there(video_height, bottom);
    } else {
        lemma_later_row(video_height, top, bottom);
    }
}

/// The distance from rail to rail: the height of the ink and the line spacing.
pub open spec fn pitch_of(ink_ref: int, line_spacing: int) -> int {
    if ink_ref + line_spacing > u32::MAX {
        u32::MAX as int
    } else if ink_ref + line_spacing < 1 {
        1
    } else {
        ink_ref + line_spacing
    }
}

/// The numbers that a video of the given size is rendered by.
pub open spec fn settings_of(
    video_width: u32,
    video_height: u32,
    o: RenderOptions,
    ink_ref: u32,
    frame_secs: Double,
) -> Settings {
    let top = row_at(video_height, o.top_ratio);
    let bottom = row_at(video_height, o.bottom_ratio);
    let pitch = pitch_of(ink_ref as int, o.line_spacing as int);
    Settings {
        video_width,
        area_top: top as u32,
        base_pitch: pitch as u32,
        rail_cnt: ((bottom - top) / pitch) as u32,
        ink_ref,
        o256: opacity_256ths(o.opacity) as u32,
        min_space: o.min_space,
        speed: o.speed,
        fixed_travel: span_of(o.fixed_duration),
        frame_secs,
    }
}

impl Settings {
    /// Works the numbers out that a video of the given size is rendered by; `None` if what is
    /// computed from them cannot be held. `ink_ref` is the height of the ink at the standard font
    /// size.
    pub fn plan(
        video_width: u32,
        video_height: u32,
        o: &RenderOptions,
        ink_ref: u32,
        frame_secs: Double,
    ) -> (settings: Option<Settings>)
        requires
            o.top_ratio.below(o.bottom_ratio),
        ensures
            ({
                let s = settings_of(video_width, video_height, *o, ink_ref, frame_secs);
                settings == if s.wf() {
                    Some(s)
                } else {
                    None
                }
            }),
    {
        let area_top: u32 = find_row(video_height, o.top_ratio);
        let area_bottom: u32 = find_row(video_height, o.bottom_ratio);
        proof {
            law_rows_in_order(video_height, o.top_ratio, o.bottom_ratio);
        }
        let sum: u64 = ink_ref as u64 + o.line_spacing as u64;
        let base_pitch: u32 = if sum > 0xffff_ffff {
            0xffff_ffff
        } else if sum < 1 {
            1
        } else {
            sum as u32
        };
        let settings = Settings {
            video_width,
            area_top,
            base_pitch,
            rail_cnt: (area_bottom - area_top) / base_pitch,
            ink_ref,
            o256: count_256ths(o.opacity),
            min_space: o.min_space,
            speed: o.speed,
            fixed_travel: Duration::try_from_secs(o.fixed_duration),
            frame_secs,
        };
        if settings.is_valid() {
            Some(settings)
        } else {
            None
        }
    }
}

/// As many rails as fit into an area take up no more than the area.
proof fn lemma_rails_fit(area: int, pitch: int)
    requires
        area >= 0,
        pitch >= 1,
    ensures
        0 <= area / pitch <= area,
        (area / pitch) * pitch <= area,
{
    lemma_fundamental_div_mod(area, pitch);
    let rails = area / pitch;
    let rest = area % pitch;
    assert(0 <= rails && rails * pitch <= area && rails <= area) by (nonlinear_arith)
        requires
            area == pitch * rails + rest,
            0 <= rest < pitch,
            area >= 0,
            pitch >= 1,
    ;
}

/// Options that passed their check can be rendered by, wherever the rails of the danmaku area can be
/// counted.
pub proof fn law_checked_options_render(
    video_width: u32,
    video_height: u32,
    o: RenderOptions,
    files: RenderFiles,
    ink_ref: u32,
    frame_secs: Double,
)
    requires
        render_fault(o, files) is None,
        RAIL_OFFSET + row_at(video_height, o.bottom_ratio) <= usize::MAX,
    ensures
        settings_of(video_width, video_height, o, ink_ref, frame_secs).wf(),
{
    law_checked_options_are_usable(o, files);
    lemma_usable_options_render(video_width, video_height, o, ink_ref, frame_secs);
}

proof fn lemma_usable_options_render(
    video_width: u32,
    video_height: u32,
    o: RenderOptions,
    ink_ref: u32,
    frame_secs: Double,
)
    requires
        o.speed > 0,
        o.top_ratio.below(o.bottom_ratio),
        zero().at_most(o.opacity) && o.opacity.at_most(one()),
        RAIL_OFFSET + row_at(video_height, o.bottom_ratio) <= usize::MAX,
    ensures
        settings_of(video_width, video_height, o, ink_ref, frame_secs).wf(),
{
    let s = settings_of(video_width, video_height, o, ink_ref, frame_secs);
    let top = row_at(video_height, o.top_ratio);
    let bottom = row_at(video_height, o.bottom_ratio);
    let pitch = pitch_of(ink_ref as int, o.line_spacing as int);
    law_rows_in_order(video_height, o.top_ratio, o.bottom_ratio);
    law_opacity_fits(o.opacity);
    lemma_row_is_there(video_height, o.top_ratio);
    lemma_rails_fit(bottom - top, pitch);
    assert(s.base_pitch == pitch);
    assert(s.rail_cnt == (bottom - top) / pitch);
    lemma_settings_wf(s, top, bottom);
}

proof fn lemma_row_is_there(video_height: u32, ratio: Double)
    ensures
        0 <= row_at(video_height, ratio) <= u32::MAX,
{
    let d = product(of_whole(video_height as nat), ratio);
    lemma_pow2_pos(1074);
    if d.value() > 0 {
        lemma_div_pos_is_pos(d.value(), unit() as int);
    }
}

proof fn lemma_settings_wf(s: Settings, top: int, bottom: int)
    requires
        0 <= top <= bottom <= u32::MAX,
        RAIL_OFFSET + bottom <= usize::MAX,
        s.area_top == top,
        s.base_pitch > 0,
        s.o256 <= 256,
        s.speed > 0,
        s.rail_cnt == (bottom - top) / s.base_pitch as int,
    ensures
        s.wf(),
{
    lemma_rails_fit(bottom - top, s.base_pitch as int);
}

/// The height of the ink of a rendered text, from its topmost row to its lowest: at least one.
pub open spec fn ink_height(bounds: Option<(u32, u32)>) -> int {
    match bounds {
        Some((top, bottom)) => if bottom > top {
            bottom - top
        } else {
            1
        },
        None => 1,
    }
}

/// Measures the height of the ink of a rendered text.
pub fn measure_ink(bounds: Option<(u32, u32)>) -> (h: u32)
    ensures
        h == ink_height(bounds),
{
    match bounds {
        Some((top, bottom)) => if bottom > top {
            bottom - top
        } else {
            1
        },
        None => 1,
    }
}

impl Scene {
    /// Nothing on screen is drawn over anything else of its kind: fixed danmaku take up no row of
    /// pixels in common, and those that scroll one way and do have the least gap between them.
    pub open spec fn untangled(self, s: Settings) -> bool {
        &&& columns_apart(self.scroll, s.base_pitch, s.min_space as int)
        &&& columns_apart(self.reverse, s.base_pitch, s.min_space as int)
        &&& rows_disjoint(self.top, s.base_pitch)
        &&& rows_disjoint(self.bottom, s.base_pitch)
    }
}

/// In a scene that is sound, to say that nothing collides on the rails is to say it of the pixels.
proof fn lemma_untangled_is_tidy(scene: Scene, s: Settings, now: Duration)
    requires
        s.wf(),
        scene.sound(s),
    ensures
        scene.untangled(s) <==> scene.tidy(s.params(now)),
{
    let p = s.params(now);
    lemma_sound_is_on_rails(s, scene.scroll, now);
    lemma_sound_is_on_rails(s, scene.reverse, now);
    lemma_sound_is_on_rails(s, scene.top, now);
    lemma_sound_is_on_rails(s, scene.bottom, now);
    lemma_list_on_rails(scene.scroll, p);
    lemma_list_on_rails(scene.reverse, p);
    lemma_list_on_rails(scene.top, p);
    lemma_list_on_rails(scene.bottom, p);
}

proof fn lemma_sound_is_on_rails(s: Settings, slots: Seq<Slot>, now: Duration)
    requires
        all_sound(s, slots),
    ensures
        forall|i: int|
            0 <= i < slots.len() && (#[trigger] slots[i]) is Some ==> s.params(now).on_rails(
                comp_of(slots[i]),
            ),
{
    assert forall|i: int| 0 <= i < slots.len() && (#[trigger] slots[i]) is Some implies s.params(
        now,
    ).on_rails(comp_of(slots[i])) by {
        assert(is_sound(s, comp_of(slots[i])));
    }
}

/// The scene after a frame is sound.
proof fn lemma_next_is_sound(scene: Scene, s: Settings, now: Duration)
    requires
        s.wf(),
        scene.sound(s),
        scene.buried(now).movable(s),
    ensures
        scene.next(s, now).sound(s),
{
    let p = s.params(now);
    let b = scene.buried(now);
    lemma_burial_keeps(s, scene.scroll, now);
    lemma_burial_keeps(s, scene.reverse, now);
    lemma_burial_keeps(s, scene.top, now);
    lemma_burial_keeps(s, scene.bottom, now);
    lemma_placing_keeps(s, b.scroll, now, to_left());
    lemma_placing_keeps(s, b.reverse, now, to_right());
    lemma_placing_keeps(s, b.top, now, at_top());
    lemma_placing_keeps(s, b.bottom, now, at_bottom());
    lemma_moving_keeps(
        s,
        after_placing(b.scroll, p, to_left()),
        Direction::ToLeft,
        s.speed as int,
    );
    lemma_moving_keeps(
        s,
        after_placing(b.reverse, p, to_right()),
        Direction::ToRight,
        s.speed as int,
    );
}

/// From one frame to the next, nothing on screen is ever drawn over anything else of its kind.
pub proof fn law_scene_stays_untangled(scene: Scene, s: Settings, now: Duration)
    requires
        s.wf(),
        scene.sound(s),
        scene.buried(now).movable(s),
        scene.untangled(s),
    ensures
        scene.next(s, now).untangled(s),
{
    lemma_untangled_is_tidy(scene, s, now);
    law_scene_stays_tidy(scene, s, now);
    lemma_next_is_sound(scene, s, now);
    lemma_untangled_is_tidy(scene.next(s, now), s, now);
}

/// What has a place when a frame comes is gone after it if its deadline has come; if not, it has
/// moved on by the speed, to the left or to the right as its lane does, or stayed where it is fixed,
/// and nothing else about it has changed.
pub proof fn law_frame_moves_what_is_shown(
    scene: Scene,
    s: Settings,
    now: Duration,
    lane: Lane,
    i: int,
    danmaku: Danmaku,
    comp: NormalComponent,
)
    requires
        s.wf(),
        0 <= i < scene.lane(lane).len(),
        scene.lane(lane)[i] == Some((danmaku, comp)),
        comp.y is Some,
        i64::MIN <= comp.x - s.speed,
        comp.x + s.speed <= i64::MAX,
    ensures
        scene.next(s, now).lane(lane).len() == scene.lane(lane).len(),
        scene.next(s, now).lane(lane)[i] == if comp.dead_line.nanos <= now.nanos {
            None
        } else {
            Some(
                (
                    danmaku,
                    NormalComponent {
                        x: match lane {
                            Lane::Scroll => (comp.x - s.speed) as i64,
                            Lane::Reverse => (comp.x + s.speed) as i64,
                            Lane::Top | Lane::Bottom => comp.x,
                        },
                        ..comp
                    },
                ),
            )
        },
{
    let p = s.params(now);
    let rule = match lane {
        Lane::Scroll => to_left(),
        Lane::Reverse => to_right(),
        Lane::Top => at_top(),
        Lane::Bottom => at_bottom(),
    };
    let b = scene.buried(now).lane(lane);
    assert(b[i] == buried(scene.lane(lane)[i], now));
    assert(p.wf());
    lemma_settled_at(b, p, rule, i);
    if b[i] is Some {
        crate::layout_laws::law_placed_stay_put(b, p, rule, i);
    }
    assert(after_placing(b, p, rule)[i] == b[i]);
}

/// A danmaku that waits when a frame comes is gone after it if its deadline has come, or if there is
/// less time until then than it is to be shown for; if not, it stays, as it is but for a row that it
/// may have found and, where it scrolls and found one, its first move.
pub proof fn law_frame_drops_what_is_late(
    scene: Scene,
    s: Settings,
    now: Duration,
    lane: Lane,
    i: int,
    danmaku: Danmaku,
    comp: NormalComponent,
)
    requires
        s.wf(),
        0 <= i < scene.lane(lane).len(),
        scene.lane(lane)[i] == Some((danmaku, comp)),
        comp.y is None,
        comp.travel.nanos > 0,
        i64::MIN <= comp.x - s.speed,
        comp.x + s.speed <= i64::MAX,
    ensures
        ({
            let after = scene.next(s, now).lane(lane)[i];
            let moved = match lane {
                Lane::Scroll => (comp.x - s.speed) as i64,
                Lane::Reverse => (comp.x + s.speed) as i64,
                Lane::Top | Lane::Bottom => comp.x,
            };
            &&& after is None <==> comp.dead_line.nanos < now.nanos + comp.travel.nanos
            &&& after is Some ==> after == Some((danmaku, comp)) || (comp_of(after).y is Some
                && after == Some(
                (danmaku, NormalComponent { x: moved, y: comp_of(after).y, ..comp }),
            ))
        }),
{
    let p = s.params(now);
    let rule = match lane {
        Lane::Scroll => to_left(),
        Lane::Reverse => to_right(),
        Lane::Top => at_top(),
        Lane::Bottom => at_bottom(),
    };
    let b = scene.buried(now).lane(lane);
    assert(b[i] == buried(scene.lane(lane)[i], now));
    assert(p.wf());
    lemma_settled_at(b, p, rule, i);
    if b[i] is Some {
        crate::layout_laws::law_only_the_late_are_dropped(b, p, rule, i, danmaku, comp);
        let placed = after_placing(b, p, rule)[i];
        if placed is Some {
            let y = choose|y: Option<i64>|
                placed == Some((danmaku, #[trigger] crate::layout_laws::at_row(comp, y)));
            assert(comp_of(placed).y == y);
        }
    }
}

/// A danmaku that enters takes the first vacant place of its lane, or one more where none is vacant,
/// and leaves everything else on screen as it is.
pub proof fn law_entering_disturbs_nothing(
    s: Settings,
    before: Scene,
    after: Scene,
    lane: Lane,
    danmaku: Danmaku,
    sprite: RgbaImage,
    now: Duration,
)
    requires
        has_entered(s, before, after, lane, danmaku, sprite, now),
    ensures
        forall|other: Lane| other != lane ==> #[trigger] after.lane(other) == before.lane(other),
        exists|index: int|
            {
                &&& 0 <= index < after.lane(lane).len()
                &&& #[trigger] after.lane(lane)[index] == Some(
                    (danmaku, entering(s, lane, danmaku.font_size as int, sprite, now)),
                )
                &&& forall|i: int|
                    0 <= i < index ==> (#[trigger] before.lane(lane)[i]) is Some && after.lane(
                        lane,
                    )[i] == before.lane(lane)[i]
                &&& forall|i: int|
                    index < i < before.lane(lane).len() ==> #[trigger] after.lane(lane)[i]
                        == before.lane(lane)[i]
                &&& if index < before.lane(lane).len() {
                    before.lane(lane)[index] is None && after.lane(lane).len() == before.lane(
                        lane,
                    ).len()
                } else {
                    after.lane(lane).len() == before.lane(lane).len() + 1
                }
            },
{
    let slot: Slot = Some((danmaku, entering(s, lane, danmaku.font_size as int, sprite, now)));
    let list = before.lane(lane);
    let index = choose|index: int| #[trigger]
        first_vacant(list, index) && after == before.with_lane(lane, put_at(list, index, slot));
    assert(first_vacant(list, index));
    assert(after.lane(lane) == put_at(list, index, slot));
    assert(after.lane(lane)[index] == slot);
}

/// The rails fill the danmaku area, which lies between the two rows, as far as they are whole; they
/// are as far apart as the ink is high and the lines are spaced.
pub proof fn law_rails_fill_the_area(
    video_width: u32,
    video_height: u32,
    o: RenderOptions,
    ink_ref: u32,
    frame_secs: Double,
)
    requires
        o.top_ratio.below(o.bottom_ratio),
        0 < ink_ref + o.line_spacing <= u32::MAX,
    ensures
        ({
            let s = settings_of(video_width, video_height, o, ink_ref, frame_secs);
            let top = row_at(video_height, o.top_ratio);
            let bottom = row_at(video_height, o.bottom_ratio);
            &&& s.area_top == top
            &&& s.base_pitch == ink_ref + o.line_spacing
            &&& top + s.rail_cnt * s.base_pitch <= bottom
            &&& bottom < top + (s.rail_cnt + 1) * s.base_pitch
            &&& s.video_width == video_width
            &&& s.speed == o.speed
            &&& s.min_space == o.min_space
            &&& s.ink_ref == ink_ref
            &&& s.frame_secs == frame_secs
            &&& s.fixed_travel == span_of(o.fixed_duration)
        }),
{
    let top = row_at(video_height, o.top_ratio);
    let bottom = row_at(video_height, o.bottom_ratio);
    let pitch = ink_ref + o.line_spacing;
    law_rows_in_order(video_height, o.top_ratio, o.bottom_ratio);
    lemma_row_is_there(video_height, o.top_ratio);
    lemma_row_is_there(video_height, o.bottom_ratio);
    lemma_rails_fit(bottom - top, pitch);
    lemma_fundamental_div_mod(bottom - top, pitch);
    lemma_mod_bound(bottom - top, pitch);
    let n = (bottom - top) / pitch;
    assert((n + 1) * pitch == pitch * n + pitch) by (nonlinear_arith);
}

/// The row at a part of the height is that whole part of it, where the product does not round: no
/// more than the part, and less than one short of it.
pub proof fn law_row_is_part_of_height(video_height: u32, ratio: Double)
    requires
        ratio.spec_is_finite(),
        ratio.value() >= 0,
        product(of_whole(video_height as nat), ratio).value() == video_height * ratio.value(),
        video_height * ratio.value() < u32::MAX * unit(),
    ensures
        row_at(video_height, ratio) * unit() <= video_height * ratio.value(),
        video_height * ratio.value() < (row_at(video_height, ratio) + 1) * unit(),
{
    let u = unit() as int;
    let v = video_height * ratio.value();
    lemma_pow2_pos(1074);
    assert(v >= 0) by (nonlinear_arith)
        requires
            v == video_height * ratio.value(),
            ratio.value() >= 0,
    ;
    lemma_fundamental_div_mod(v, u);
    lemma_mod_bound(v, u);
    let n = v / u;
    assert(n * u <= v < (n + 1) * u) by (nonlinear_arith)
        requires
            v == u * n + v % u,
            0 <= v % u < u,
    ;
    assert(n <= u32::MAX) by (nonlinear_arith)
        requires
            n * u <= v,
            v < u32::MAX * u,
            u > 0,
    ;
    lemma_div_pos_is_pos(v, u);
    let h = of_whole(video_height as nat);
    law_whole_is_amount(video_height as nat);
    lemma_magnitude_monotone(size(h) * size(ratio), size(h) * size(ratio), unit());
    assert(!product(h, ratio).spec_is_nan());
    assert(row_at(video_height, ratio) == n);
}

/// Danmaku are drawn as opaque as is asked for, in the area and with the gaps that the options say,
/// in every frame.
pub proof fn law_frames_are_drawn_as_asked(
    video_width: u32,
    video_height: u32,
    o: RenderOptions,
    ink_ref: u32,
    frame_secs: Double,
    now: Duration,
)
    ensures
        ({
            let s = settings_of(video_width, video_height, o, ink_ref, frame_secs);
            let p = s.params(now);
            &&& p.o256 == opacity_256ths(o.opacity)
            &&& p.min_space == o.min_space
            &&& p.area_top == s.area_top
            &&& p.base_pitch == s.base_pitch
            &&& p.rail_cnt == s.rail_cnt
            &&& p.now == now
        }),
{
}

} // verus!
