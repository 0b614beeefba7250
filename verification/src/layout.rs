//! Where danmaku stand on a frame: rails, collisions, and what happens when there is no room.

use crate::danmaku::Danmaku;
use crate::duration::Duration;
use crate::growable::GrowableVec;
use crate::layout_laws::{
    columns_apart, law_fixed_rows_stay_disjoint, law_scrolling_columns_stay_apart, rows_disjoint,
};
use crate::rails::{members, BitSet};
use crate::raster::{blit, laid_on, Frame, RgbImage, RgbaImage};
use vstd::prelude::*;

verus! {

/// What is added to a rail number before it enters a set of taken rails.
pub const RAIL_OFFSET: usize = 1000;

/// The frame-wide numbers that placing and drawing go by.
#[derive(Clone, Copy, Debug)]
pub struct DrawParams {
    /// The height of one rail, in pixels.
    pub base_pitch: u32,
    /// How many rails there are.
    pub rail_cnt: u32,
    /// The frame row of the topmost rail.
    pub area_top: i64,
    /// The opacity of all danmaku, in 256ths.
    pub o256: u32,
    /// The least gap between two scrolling danmaku on one rail, in pixels.
    pub min_space: i64,
    /// The time of the frame.
    pub now: Duration,
}

/// Which way a scrolling danmaku moves.
#[derive(Clone, Copy, Debug, PartialEq, Eq, Structural)]
pub enum Direction {
    ToLeft,
    ToRight,
}

/// A danmaku on screen, or waiting to be.
#[derive(Clone, Debug)]
pub struct NormalComponent {
    /// The column of its left edge.
    pub x: i64,
    /// The row of its upper edge below the topmost rail, once it has been placed.
    pub y: Option<i64>,
    pub width: u32,
    /// How many rails it is high.
    pub n_rails: u32,
    /// How long it has to be shown.
    pub travel: Duration,
    /// When it is gone.
    pub dead_line: Duration,
    /// The rendered text.
    pub cached_text: Option<RgbaImage>,
}

/// A place in a list of danmaku that may be vacant.
pub type Slot = Option<(Danmaku, NormalComponent)>;

/// The danmaku in a slot that is not vacant, as it stands on screen.
pub open spec fn comp_of(slot: Slot) -> NormalComponent {
    match slot {
        Some((_, comp)) => comp,
        None => arbitrary(),
    }
}

/// How a list of danmaku finds its rails.
#[derive(Clone, Copy, Debug, PartialEq, Eq, Structural)]
pub enum Placement {
    Fixed { from_bottom: bool },
    Scroll { dir: Direction },
}

/// The last rail on which a danmaku `n` rails high can begin.
pub open spec fn last_start(n: int, rail_cnt: int) -> int {
    if rail_cnt >= n {
        rail_cnt - n
    } else {
        0
    }
}

/// The rails that a set of offset numbers stands for.
pub open spec fn rails_of(occupied: Set<usize>) -> Set<int> {
    Set::new(
        |r: int|
            0 <= r && RAIL_OFFSET + r <= usize::MAX && occupied.contains(
                (RAIL_OFFSET + r) as usize,
            ),
    )
}

/// None of the `n` rails from `start` on is in `taken`.
pub open spec fn run_free(taken: Set<int>, start: int, n: int) -> bool {
    forall|r: int| start <= r < start + n ==> !#[trigger] taken.contains(r)
}

/// `i` is the first rail, searching from the top or from the bottom, on which a danmaku `n` rails
/// high finds room.
pub open spec fn first_free(
    taken: Set<int>,
    n: int,
    rail_cnt: int,
    from_bottom: bool,
    i: int,
) -> bool {
    &&& 0 <= i <= last_start(n, rail_cnt)
    &&& run_free(taken, i, n)
    &&& forall|j: int|
        0 <= j <= last_start(n, rail_cnt) && (if from_bottom {
            j > i
        } else {
            j < i
        }) ==> !#[trigger] run_free(taken, j, n)
}

/// Whether none of the `n` rails from `start` on is taken.
fn is_run_free(occupieds: &BitSet, start: u32, n: u32) -> (free: bool)
    requires
        start + n <= u32::MAX + 1,
        RAIL_OFFSET + start + n <= usize::MAX + 1,
    ensures
        free == run_free(rails_of(members(*occupieds)), start as int, n as int),
{
    let ghost taken = rails_of(members(*occupieds));
    let mut k: u32 = 0;
    while k < n
        invariant
            k <= n,
            start + n <= u32::MAX + 1,
            RAIL_OFFSET + start + n <= usize::MAX + 1,
            taken == rails_of(members(*occupieds)),
            forall|r: int| start <= r < start + k ==> !#[trigger] taken.contains(r),
        decreases n - k,
    {
        assert(taken.contains(start + k) == members(*occupieds).contains(
            (RAIL_OFFSET + start + k) as usize,
        ));
        if occupieds.contains(RAIL_OFFSET + (start + k) as usize) {
            return false;
        }
        k = k + 1;
    }
    true
}

/// The first rail, from the top or from the bottom, on which a danmaku `n_rails` rails high finds
/// room among `rail_cnt` rails.
pub fn find_free_track(
    occupieds: &BitSet,
    n_rails: u32,
    rail_cnt: u32,
    from_bottom: bool,
) -> (track: Option<u32>)
    requires
        RAIL_OFFSET + n_rails <= usize::MAX + 1,
        RAIL_OFFSET + rail_cnt <= usize::MAX + 1,
    ensures
        match track {
            Some(i) => first_free(
                rails_of(members(*occupieds)),
                n_rails as int,
                rail_cnt as int,
                from_bottom,
                i as int,
            ),
            None => forall|i: int|
                0 <= i <= last_start(n_rails as int, rail_cnt as int) ==> !#[trigger] run_free(
                    rails_of(members(*occupieds)),
                    i,
                    n_rails as int,
                ),
        },
{
    let ghost taken = rails_of(members(*occupieds));
    let last: u32 = if rail_cnt >= n_rails { rail_cnt - n_rails } else { 0 };
    let mut tried: u32 = 0;
    while tried <= last
        invariant
            tried <= last + 1,
            last == last_start(n_rails as int, rail_cnt as int),
            taken == rails_of(members(*occupieds)),
            RAIL_OFFSET + n_rails <= usize::MAX + 1,
            RAIL_OFFSET + rail_cnt <= usize::MAX + 1,
            forall|j: int|
                0 <= j <= last && (if from_bottom {
                    j > last - tried
                } else {
                    j < tried
                }) ==> !#[trigger] run_free(taken, j, n_rails as int),
        decreases last + 1 - tried,
    {
        let i: u32 = if from_bottom { last - tried } else { tried };
        if is_run_free(occupieds, i, n_rails) {
            return Some(i);
        }
        if tried == last {
            return None;
        }
        tried = tried + 1;
    }
    None
}

/// The numbers in a set, and those of the `n` rails from `track` on.
pub open spec fn marked(occupied: Set<usize>, track: int, n: int) -> Set<usize> {
    occupied.union(
        Set::new(|b: usize| RAIL_OFFSET + track <= b < RAIL_OFFSET + track + n),
    )
}

/// Takes the `n_rails` rails from `track` on.
pub fn mark_track_occupied(occupieds: &mut BitSet, track: u32, n_rails: u32)
    requires
        track + n_rails <= u32::MAX + 1,
        RAIL_OFFSET + track + n_rails <= usize::MAX,
    ensures
        members(*final(occupieds)) == marked(members(*old(occupieds)), track as int, n_rails as int),
{
    let mut k: u32 = 0;
    assert(members(*occupieds) =~= marked(members(*old(occupieds)), track as int, 0));
    while k < n_rails
        invariant
            k <= n_rails,
            track + n_rails <= u32::MAX + 1,
            RAIL_OFFSET + track + n_rails <= usize::MAX,
            members(*occupieds) == marked(members(*old(occupieds)), track as int, k as int),
        decreases n_rails - k,
    {
        occupieds.insert(RAIL_OFFSET + (track + k) as usize);
        k = k + 1;
        assert(members(*occupieds) =~= marked(members(*old(occupieds)), track as int, k as int));
    }
}

/// Marking takes the rails that are marked, and no others.
pub proof fn lemma_marked_rails(occupied: Set<usize>, track: int, n: int)
    requires
        track >= 0,
        RAIL_OFFSET + track + n <= usize::MAX,
    ensures
        rails_of(marked(occupied, track, n)) == rails_of(occupied).union(
            Set::new(|r: int| track <= r < track + n),
        ),
{
    assert(rails_of(marked(occupied, track, n)) =~= rails_of(occupied).union(
        Set::new(|r: int| track <= r < track + n),
    ));
}

/// The least whole number that is not below `a / b`.
pub open spec fn ceil_div(a: int, b: int) -> int {
    if a % b == 0 {
        a / b
    } else {
        a / b + 1
    }
}

/// How many rails a danmaku of the given font size is high: as many as its ink needs, and at least
/// one. `ink_ref` is the height of the ink at the standard font size of 25, to which that of other
/// sizes is proportional.
pub open spec fn rails_needed(ink_ref: int, base_pitch: int, font_size: int) -> int {
    let ink = ceil_div(ink_ref * font_size, 25) as u32;
    let needed = ceil_div(ink as int, base_pitch);
    if needed > 1 {
        needed
    } else {
        1
    }
}

/// Counts the rails that a danmaku of the given font size is high.
pub fn compute_n_rails(ink_ref: u32, base_pitch: u32, font_size: usize) -> (n: u32)
    requires
        base_pitch > 0,
        ink_ref * font_size <= u64::MAX,
    ensures
        n == rails_needed(ink_ref as int, base_pitch as int, font_size as int),
{
    let scaled: u64 = ink_ref as u64 * font_size as u64;
    let ink_u64: u64 = if scaled % 25 == 0 { scaled / 25 } else { scaled / 25 + 1 };
    let ink: u32 = ink_u64 as u32;
    assert(ink / base_pitch <= ink) by (nonlinear_arith)
        requires
            base_pitch > 0,
    ;
    assert(base_pitch == 1 ==> ink % base_pitch == 0);
    assert(base_pitch >= 2 ==> ink / base_pitch < u32::MAX) by (nonlinear_arith)
        requires
            base_pitch > 0,
            ink <= u32::MAX,
    ;
    let needed: u32 = if ink % base_pitch == 0 {
        ink / base_pitch
    } else {
        ink / base_pitch + 1
    };
    if needed > 1 {
        needed
    } else {
        1
    }
}

/// What becomes of a slot in one frame.
pub enum Verdict {
    /// There is no danmaku in it.
    Vacant,
    /// It was placed before, at row `y`.
    Shown { y: int },
    /// It cannot be shown long enough any more.
    Dropped,
    /// There is no room for it now.
    Waiting,
    /// It has found its place, at row `y`.
    Placed { y: int },
}

/// How much of its time on screen is left to a danmaku.
pub open spec fn time_left(comp: NormalComponent, now: Duration) -> int {
    if comp.dead_line.nanos >= now.nanos {
        comp.dead_line.nanos - now.nanos
    } else {
        0
    }
}

/// Whether the danmaku `other`, which has been placed, keeps `comp` off its rails.
pub open spec fn blocks(
    rule: Placement,
    p: DrawParams,
    other: NormalComponent,
    comp: NormalComponent,
) -> bool {
    match rule {
        Placement::Fixed { .. } => true,
        Placement::Scroll { dir: Direction::ToLeft } => other.width + other.x + p.min_space
            > comp.x,
        Placement::Scroll { dir: Direction::ToRight } => other.x < comp.x + comp.width
            + p.min_space,
    }
}

/// Whether rail `r` is one of the `n` rails from row `y` on.
pub open spec fn covers(p: DrawParams, y: int, n: int, r: int) -> bool {
    y / p.base_pitch as int <= r < y / p.base_pitch as int + n
}

/// Slot `i` holds a danmaku that was placed before, keeps that of slot `k` off its rails, and
/// stands on rail `r`.
pub open spec fn held_by_shown(
    slots: Seq<Slot>,
    p: DrawParams,
    rule: Placement,
    k: int,
    i: int,
    r: int,
) -> bool {
    &&& slots[i] is Some
    &&& comp_of(slots[i]).y is Some
    &&& blocks(rule, p, comp_of(slots[i]), comp_of(slots[k]))
    &&& covers(p, comp_of(slots[i]).y->0 as int, comp_of(slots[i]).n_rails as int, r)
}

/// Slot `j` holds a danmaku that has been placed in this frame and stands on rail `r`.
pub open spec fn held_by_placed(
    slots: Seq<Slot>,
    p: DrawParams,
    verdicts: Seq<Verdict>,
    j: int,
    r: int,
) -> bool {
    &&& verdicts[j] is Placed
    &&& covers(p, verdicts[j]->Placed_y, comp_of(slots[j]).n_rails as int, r)
}

/// The rails that the danmaku in slot `k` cannot have, given what became of the slots before it.
pub open spec fn taken_rails(
    slots: Seq<Slot>,
    p: DrawParams,
    rule: Placement,
    verdicts: Seq<Verdict>,
    k: int,
) -> Set<int> {
    Set::new(
        |r: int|
            {
                ||| exists|i: int|
                    0 <= i < slots.len() && #[trigger] held_by_shown(slots, p, rule, k, i, r)
                ||| exists|j: int|
                    0 <= j < k && #[trigger] held_by_placed(slots, p, verdicts, j, r)
            },
    )
}

/// Whether rails are searched from the bottom.
pub open spec fn from_bottom(rule: Placement) -> bool {
    rule == (Placement::Fixed { from_bottom: true })
}

/// What becomes of slot `k`, given what became of the slots before it.
pub open spec fn verdict(
    slots: Seq<Slot>,
    p: DrawParams,
    rule: Placement,
    verdicts: Seq<Verdict>,
    k: int,
) -> Verdict {
    match slots[k] {
        None => Verdict::Vacant,
        Some((_, comp)) => match comp.y {
            Some(y) => Verdict::Shown { y: y as int },
            None => {
                let taken = taken_rails(slots, p, rule, verdicts, k);
                let n = comp.n_rails as int;
                if time_left(comp, p.now) < comp.travel.nanos {
                    Verdict::Dropped
                } else if exists|t: int|
                    first_free(taken, n, p.rail_cnt as int, from_bottom(rule), t) {
                    let t = choose|t: int|
                        first_free(taken, n, p.rail_cnt as int, from_bottom(rule), t);
                    Verdict::Placed { y: t * p.base_pitch }
                } else {
                    Verdict::Waiting
                }
            },
        },
    }
}

/// What becomes of the first `k` slots.
pub open spec fn verdicts(slots: Seq<Slot>, p: DrawParams, rule: Placement, k: nat) -> Seq<Verdict>
    decreases k,
{
    if k == 0 {
        Seq::empty()
    } else {
        let before = verdicts(slots, p, rule, (k - 1) as nat);
        before.push(verdict(slots, p, rule, before, k - 1))
    }
}

/// The slot once its danmaku stands at row `y`.
pub open spec fn with_y(slot: Slot, y: int) -> Slot {
    match slot {
        None => None,
        Some((dan, comp)) => Some((dan, NormalComponent { y: Some(y as i64), ..comp })),
    }
}

/// A slot after its verdict.
pub open spec fn settled_slot(slot: Slot, verdict: Verdict) -> Slot {
    match verdict {
        Verdict::Placed { y } => with_y(slot, y),
        Verdict::Dropped => None,
        _ => slot,
    }
}

/// The slots after their verdicts.
pub open spec fn settled(slots: Seq<Slot>, verdicts: Seq<Verdict>) -> Seq<Slot> {
    Seq::new(slots.len(), |i: int| settled_slot(slots[i], verdicts[i]))
}

/// The frame once the danmaku `comp` is drawn at row `y`. Its column and its row on the frame are
/// taken in 32 bits.
pub open spec fn drawn(frame: Frame, comp: NormalComponent, y: int, p: DrawParams) -> Frame {
    laid_on(
        frame,
        comp.cached_text->0,
        (comp.x as i32) as int,
        ((y + p.area_top) as i32) as int,
        p.o256 as int,
    )
}

/// The frame once the first `k` slots have been drawn.
pub open spec fn painted(
    frame: Frame,
    slots: Seq<Slot>,
    p: DrawParams,
    verdicts: Seq<Verdict>,
    k: nat,
) -> Frame
    decreases k,
{
    if k == 0 {
        frame
    } else {
        let before = painted(frame, slots, p, verdicts, (k - 1) as nat);
        match verdicts[k - 1] {
            Verdict::Shown { y } => drawn(before, comp_of(slots[k - 1]), y, p),
            Verdict::Placed { y } => drawn(before, comp_of(slots[k - 1]), y, p),
            _ => before,
        }
    }
}

impl DrawParams {
    /// The rails are of some height, and what is computed from them can be held.
    pub open spec fn wf(self) -> bool {
        &&& self.base_pitch > 0
        &&& self.o256 <= 256
        &&& self.rail_cnt * self.base_pitch <= i64::MAX
        &&& RAIL_OFFSET + self.rail_cnt <= usize::MAX
    }

    /// The danmaku can be drawn at row `y`: it has been rendered, and its row on the frame can be
    /// held.
    pub open spec fn can_draw(self, comp: NormalComponent, y: int) -> bool {
        &&& i64::MIN <= y + self.area_top <= i64::MAX
        &&& comp.cached_text is Some
        &&& comp.cached_text->0.wf()
    }

    /// The danmaku can be drawn on rail `t`.
    pub open spec fn can_draw_on(self, comp: NormalComponent, t: int) -> bool {
        self.can_draw(comp, t * self.base_pitch)
    }

    /// The danmaku stands on a whole rail, and its rails can be held.
    pub open spec fn on_rails(self, comp: NormalComponent) -> bool {
        match comp.y {
            Some(y) => {
                &&& y >= 0
                &&& y % self.base_pitch as i64 == 0
                &&& (y as int) / (self.base_pitch as int) + comp.n_rails <= u32::MAX + 1
                &&& RAIL_OFFSET + (y as int) / (self.base_pitch as int) + comp.n_rails <= usize::MAX
            },
            None => RAIL_OFFSET + comp.n_rails <= usize::MAX,
        }
    }

    /// The columns that the danmaku keeps others away from can be held.
    pub open spec fn columns_fit(self, comp: NormalComponent) -> bool {
        &&& comp.x + comp.width <= i64::MAX
        &&& i64::MIN <= comp.x + comp.width + self.min_space <= i64::MAX
    }

    /// What placing and drawing ask of a danmaku.
    pub open spec fn accepts(self, comp: NormalComponent) -> bool {
        &&& self.on_rails(comp)
        &&& self.columns_fit(comp)
        &&& match comp.y {
            Some(y) => self.can_draw(comp, y as int),
            None => forall|t: int|
                0 <= t <= self.rail_cnt ==> #[trigger] self.can_draw_on(comp, t),
        }
    }

    /// What placing and drawing ask of a list of danmaku.
    pub open spec fn accepts_all(self, slots: Seq<Slot>) -> bool {
        forall|i: int|
            0 <= i < slots.len() && (#[trigger] slots[i]) is Some ==> self.accepts(comp_of(slots[i]))
    }
}

/// Later verdicts leave earlier ones as they are.
proof fn lemma_verdicts_prefix(
    slots: Seq<Slot>,
    p: DrawParams,
    rule: Placement,
    k: nat,
    m: nat,
)
    requires
        k <= m,
    ensures
        verdicts(slots, p, rule, k).len() == k,
        verdicts(slots, p, rule, m).len() == m,
        verdicts(slots, p, rule, m).take(k as int) =~= verdicts(slots, p, rule, k),
    decreases m,
{
    if m > 0 && k < m {
        lemma_verdicts_prefix(slots, p, rule, k, (m - 1) as nat);
        assert(verdicts(slots, p, rule, m).take(k as int) =~= verdicts(
            slots,
            p,
            rule,
            (m - 1) as nat,
        ).take(k as int));
    } else if m > 0 {
        lemma_verdicts_prefix(slots, p, rule, (m - 1) as nat, (m - 1) as nat);
    }
}

/// There is only one first free rail.
proof fn lemma_first_free_unique(
    taken: Set<int>,
    n: int,
    rail_cnt: int,
    from_bottom: bool,
    i: int,
    j: int,
)
    requires
        first_free(taken, n, rail_cnt, from_bottom, i),
        first_free(taken, n, rail_cnt, from_bottom, j),
    ensures
        i == j,
{
}

/// What is to be done with a slot.
#[derive(Clone, Copy)]
enum Decision {
    Keep,
    Drop,
    Place(i64),
}

spec fn decides(d: Decision, v: Verdict) -> bool {
    match v {
        Verdict::Placed { y } => d matches Decision::Place(z) && z == y,
        Verdict::Dropped => d is Drop,
        _ => d is Keep,
    }
}

/// Takes the rails of a danmaku that stands at row `y`.
fn mark_row(occupieds: &mut BitSet, p: &DrawParams, y: i64, n_rails: u32)
    requires
        p.base_pitch > 0,
        y >= 0,
        (y as int) / (p.base_pitch as int) + n_rails <= u32::MAX + 1,
        RAIL_OFFSET + (y as int) / (p.base_pitch as int) + n_rails <= usize::MAX,
    ensures
        rails_of(members(*final(occupieds))) == rails_of(members(*old(occupieds))).union(
            Set::new(|r: int| covers(*p, y as int, n_rails as int, r)),
        ),
{
    let row: i64 = y / p.base_pitch as i64;
    assert(row >= 0) by (nonlinear_arith)
        requires
            y >= 0,
            p.base_pitch > 0,
            row == y as int / p.base_pitch as int,
    ;
    let track: u32 = row as u32;
    mark_track_occupied(occupieds, track, n_rails);
    proof {
        lemma_marked_rails(members(*old(occupieds)), track as int, n_rails as int);
    }
    assert(Set::new(|r: int| covers(*p, y as int, n_rails as int, r)) =~= Set::new(
        |r: int| track <= r < track + n_rails,
    ));
}

/// Whether the danmaku `other`, which has been placed, keeps `comp` off its rails.
fn is_blocking(
    rule: Placement,
    p: &DrawParams,
    other: &NormalComponent,
    comp: &NormalComponent,
) -> (b: bool)
    requires
        p.columns_fit(*other),
        p.columns_fit(*comp),
    ensures
        b == blocks(rule, *p, *other, *comp),
{
    match rule {
        Placement::Fixed { .. } => true,
        Placement::Scroll { dir } => match dir {
            Direction::ToLeft => other.width as i64 + other.x + p.min_space > comp.x,
            Direction::ToRight => other.x < comp.x + comp.width as i64 + p.min_space,
        },
    }
}

/// Collects into `occupieds`, which is empty, the rails that the danmaku in slot `k` cannot have.
fn collect_taken(
    occupieds: &mut BitSet,
    slots: &GrowableVec<Slot>,
    p: &DrawParams,
    rule: Placement,
    decisions: &Vec<Decision>,
    k: usize,
)
    requires
        members(*old(occupieds)) == Set::<usize>::empty(),
        p.wf(),
        p.accepts_all(slots@),
        k < slots@.len(),
        slots@[k as int] is Some,
        decisions@.len() == k,
        forall|j: int|
            0 <= j < k ==> decides(#[trigger] decisions@[j], verdicts(slots@, *p, rule, k as nat)[j]),
        forall|j: int|
            0 <= j < k && (#[trigger] decisions@[j]) is Place ==> placeable(
                slots@[j],
                *p,
                decisions@[j]->Place_0,
            ),
    ensures
        rails_of(members(*final(occupieds))) == taken_rails(
            slots@,
            *p,
            rule,
            verdicts(slots@, *p, rule, k as nat),
            k as int,
        ),
{
    let ghost all = slots@;
    let ghost v = verdicts(slots@, *p, rule, k as nat);
    let len: usize = slots.len();
    let mut i: usize = 0;
    assert(rails_of(members(*occupieds)) =~= Set::new(
        |r: int| exists|n: int| 0 <= n < i && #[trigger] held_by_shown(all, *p, rule, k as int, n, r),
    ));
    while i < len
        invariant
            i <= len,
            len == all.len(),
            all == slots@,
            k < len,
            all[k as int] is Some,
            p.wf(),
            p.accepts_all(all),
            rails_of(members(*occupieds)) == Set::new(
                |r: int|
                    exists|n: int|
                        0 <= n < i && #[trigger] held_by_shown(all, *p, rule, k as int, n, r),
            ),
        decreases len - i,
    {
        let ghost before = rails_of(members(*occupieds));
        match (&slots[i], &slots[k]) {
            (Some((_, other)), Some((_, comp))) => {
                if let Some(y) = other.y {
                    if is_blocking(rule, p, other, comp) {
                        mark_row(occupieds, p, y, other.n_rails);
                    }
                }
            },
            _ => {},
        }
        assert(rails_of(members(*occupieds)) =~= Set::new(
            |r: int|
                exists|n: int|
                    0 <= n < i + 1 && #[trigger] held_by_shown(all, *p, rule, k as int, n, r),
        )) by {
            assert forall|r: int|
                rails_of(members(*occupieds)).contains(r) == exists|n: int|
                    0 <= n < i + 1 && #[trigger] held_by_shown(all, *p, rule, k as int, n, r) by {
                assert(rails_of(members(*occupieds)).contains(r) == (before.contains(r)
                    || held_by_shown(all, *p, rule, k as int, i as int, r)));
                if exists|n: int|
                    0 <= n < i + 1 && #[trigger] held_by_shown(all, *p, rule, k as int, n, r) {
                    let n = choose|n: int|
                        0 <= n < i + 1 && #[trigger] held_by_shown(all, *p, rule, k as int, n, r);
                    if n < i {
                        assert(before.contains(r));
                    }
                }
            }
        }
        i = i + 1;
    }
    let ghost shown = rails_of(members(*occupieds));
    let mut j: usize = 0;
    assert(shown =~= shown.union(
        Set::new(|r: int| exists|n: int| 0 <= n < 0 && #[trigger] held_by_placed(all, *p, v, n, r)),
    ));
    while j < k
        invariant
            j <= k,
            k < all.len(),
            all == slots@,
            p.wf(),
            decisions@.len() == k,
            v == verdicts(all, *p, rule, k as nat),
            forall|n: int| 0 <= n < k ==> decides(#[trigger] decisions@[n], v[n]),
            forall|n: int|
                0 <= n < k && (#[trigger] decisions@[n]) is Place ==> placeable(
                    all[n],
                    *p,
                    decisions@[n]->Place_0,
                ),
            rails_of(members(*occupieds)) == shown.union(
                Set::new(
                    |r: int|
                        exists|n: int| 0 <= n < j && #[trigger] held_by_placed(all, *p, v, n, r),
                ),
            ),
        decreases k - j,
    {
        let ghost before = rails_of(members(*occupieds));
        assert(decides(decisions@[j as int], v[j as int]));
        if let Decision::Place(y) = decisions[j] {
            if let Some((_, other)) = &slots[j] {
                mark_row(occupieds, p, y, other.n_rails);
            }
        }
        assert(rails_of(members(*occupieds)) =~= shown.union(
            Set::new(
                |r: int|
                    exists|n: int| 0 <= n < j + 1 && #[trigger] held_by_placed(all, *p, v, n, r),
            ),
        )) by {
            assert forall|r: int| #[trigger] rails_of(members(*occupieds)).contains(r) == (
            shown.contains(r) || exists|n: int|
                0 <= n < j + 1 && #[trigger] held_by_placed(all, *p, v, n, r)) by {
                assert(rails_of(members(*occupieds)).contains(r) == (before.contains(r)
                    || held_by_placed(all, *p, v, j as int, r)));
                if exists|n: int| 0 <= n < j + 1 && #[trigger] held_by_placed(all, *p, v, n, r) {
                    let n = choose|n: int|
                        0 <= n < j + 1 && #[trigger] held_by_placed(all, *p, v, n, r);
                    if n < j {
                        assert(before.contains(r));
                    }
                }
            }
        }
        j = j + 1;
    }
    assert(rails_of(members(*occupieds)) =~= taken_rails(all, *p, rule, v, k as int));
}

/// Draws the danmaku at row `y`.
fn draw_component(image: &mut RgbImage, p: &DrawParams, comp: &NormalComponent, y: i64)
    requires
        old(image).wf(),
        p.o256 <= 256,
        p.can_draw(*comp, y as int),
    ensures
        final(image).wf(),
        final(image)@ == drawn(old(image)@, *comp, y as int, *p),
{
    if let Some(sprite) = &comp.cached_text {
        blit(image, sprite, comp.x as i32, (y + p.area_top) as i32, p.o256);
    }
}

/// What becomes of the danmaku in slot `k`, and the frame with it drawn where it is shown.
fn decide_slot(
    image: &mut RgbImage,
    p: &DrawParams,
    slots: &GrowableVec<Slot>,
    rule: Placement,
    decisions: &Vec<Decision>,
    k: usize,
    occupieds: &mut BitSet,
) -> (d: Decision)
    requires
        old(image).wf(),
        members(*old(occupieds)) == Set::<usize>::empty(),
        p.wf(),
        p.accepts_all(slots@),
        k < slots@.len(),
        decisions@.len() == k,
        forall|j: int|
            0 <= j < k ==> decides(#[trigger] decisions@[j], verdicts(slots@, *p, rule, k as nat)[j]),
        forall|j: int|
            0 <= j < k && (#[trigger] decisions@[j]) is Place ==> placeable(
                slots@[j],
                *p,
                decisions@[j]->Place_0,
            ),
    ensures
        final(image).wf(),
        members(*final(occupieds)) == Set::<usize>::empty(),
        ({
            let v = verdict(
                slots@,
                *p,
                rule,
                verdicts(slots@, *p, rule, k as nat),
                k as int,
            );
            &&& decides(d, v)
            &&& d is Place ==> placeable(slots@[k as int], *p, d->Place_0)
            &&& final(image)@ == match v {
                Verdict::Shown { y } => drawn(old(image)@, comp_of(slots@[k as int]), y, *p),
                Verdict::Placed { y } => drawn(old(image)@, comp_of(slots@[k as int]), y, *p),
                _ => old(image)@,
            }
        }),
{
    let comp: &NormalComponent = match &slots[k] {
        Some((_, comp)) => comp,
        None => {
            return Decision::Keep;
        },
    };
    if let Some(y) = comp.y {
        draw_component(image, p, comp, y);
        return Decision::Keep;
    }
    collect_taken(occupieds, slots, p, rule, decisions, k);
    let ghost taken = rails_of(members(*occupieds));
    let bottom_up: bool = match rule {
        Placement::Fixed { from_bottom } => from_bottom,
        Placement::Scroll { .. } => false,
    };
    let left = comp.dead_line.saturating_sub(p.now);
    if left.nanos < comp.travel.nanos {
        occupieds.reset();
        return Decision::Drop;
    }
    let track = find_free_track(occupieds, comp.n_rails, p.rail_cnt, bottom_up);
    occupieds.reset();
    match track {
        None => {
            assert forall|t: int| !first_free(
                taken,
                comp.n_rails as int,
                p.rail_cnt as int,
                from_bottom(rule),
                t,
            ) by {}
            Decision::Keep
        },
        Some(t) => {
            proof {
                let n = comp.n_rails as int;
                assert(first_free(taken, n, p.rail_cnt as int, from_bottom(rule), t as int));
                let c = choose|c: int|
                    first_free(taken, n, p.rail_cnt as int, from_bottom(rule), c);
                lemma_first_free_unique(
                    taken,
                    n,
                    p.rail_cnt as int,
                    from_bottom(rule),
                    c,
                    t as int,
                );
                assert(p.can_draw_on(*comp, t as int));
                assert(0 <= t * p.base_pitch <= p.rail_cnt * p.base_pitch) by (nonlinear_arith)
                    requires
                        0 <= t <= p.rail_cnt,
                        0 <= p.base_pitch,
                ;
                vstd::arithmetic::div_mod::lemma_div_multiples_vanish(
                    t as int,
                    p.base_pitch as int,
                );
                assert(p.base_pitch * t == t * p.base_pitch) by (nonlinear_arith);
            }
            let y: i64 = t as i64 * p.base_pitch as i64;
            draw_component(image, p, comp, y);
            Decision::Place(y)
        },
    }
}

/// The danmaku in the slot can stand at row `y`: its rails can be held.
spec fn placeable(slot: Slot, p: DrawParams, y: i64) -> bool {
    &&& slot is Some
    &&& y >= 0
    &&& (y as int) / (p.base_pitch as int) + comp_of(slot).n_rails <= u32::MAX + 1
    &&& RAIL_OFFSET + (y as int) / (p.base_pitch as int) + comp_of(slot).n_rails <= usize::MAX
}

/// Places what waits and can be placed, drops what cannot be shown long enough any more, and draws
/// what has a place.
fn place_and_draw(
    image: &mut RgbImage,
    p: &DrawParams,
    slots: &mut GrowableVec<Slot>,
    rule: Placement,
)
    requires
        old(image).wf(),
        p.wf(),
        p.accepts_all(old(slots)@),
    ensures
        final(image).wf(),
        ({
            let v = verdicts(old(slots)@, *p, rule, old(slots)@.len());
            &&& final(slots)@ == settled(old(slots)@, v)
            &&& final(image)@ == painted(old(image)@, old(slots)@, *p, v, old(slots)@.len())
        }),
        final(slots).filler() == old(slots).filler(),
{
    let ghost all = slots@;
    let ghost v = verdicts(all, *p, rule, all.len());
    let ghost frame = image@;
    let len: usize = slots.len();
    let cap: usize = if len <= usize::MAX - RAIL_OFFSET { len + RAIL_OFFSET } else { len };
    let mut occupieds = BitSet::with_capacity(cap);
    let mut decisions: Vec<Decision> = Vec::new();
    let mut k: usize = 0;
    while k < len
        invariant
            image.wf(),
            p.wf(),
            p.accepts_all(all),
            slots@ == all,
            slots.filler() == old(slots).filler(),
            len == all.len(),
            k <= len,
            v == verdicts(all, *p, rule, all.len()),
            members(occupieds) == Set::<usize>::empty(),
            decisions@.len() == k,
            forall|j: int|
                0 <= j < k ==> decides(
                    #[trigger] decisions@[j],
                    verdicts(all, *p, rule, k as nat)[j],
                ),
            forall|j: int|
                0 <= j < k && (#[trigger] decisions@[j]) is Place ==> placeable(
                    all[j],
                    *p,
                    decisions@[j]->Place_0,
                ),
            image@ == painted(frame, all, *p, v, k as nat),
        decreases len - k,
    {
        let d = decide_slot(image, p, slots, rule, &decisions, k, &mut occupieds);
        decisions.push(d);
        proof {
            lemma_verdicts_prefix(all, *p, rule, k as nat, k as nat);
            lemma_verdicts_prefix(all, *p, rule, (k + 1) as nat, all.len());
            assert(v.take(k + 1)[k as int] == v[k as int]);
        }
        k = k + 1;
    }
    proof {
        lemma_verdicts_prefix(all, *p, rule, all.len(), all.len());
    }
    let mut i: usize = 0;
    while i < len
        invariant
            i <= len,
            len == all.len(),
            decisions@.len() == len,
            v.len() == len,
            slots@.len() == len,
            slots.filler() == old(slots).filler(),
            forall|j: int| 0 <= j < len ==> decides(#[trigger] decisions@[j], v[j]),
            forall|j: int|
                0 <= j < len ==> #[trigger] slots@[j] == if j < i {
                    settled_slot(all[j], v[j])
                } else {
                    all[j]
                },
        decreases len - i,
    {
        let ghost now = slots@;
        assert(decides(decisions@[i as int], v[i as int]));
        match decisions[i] {
            Decision::Keep => {},
            Decision::Drop => {
                slots.replace(i, None);
            },
            Decision::Place(y) => {
                let slot = slots.slot_mut(i);
                if let Some((_, comp)) = slot {
                    comp.y = Some(y);
                }
            },
        }
        i = i + 1;
    }
    assert(slots@ =~= settled(all, v));
}

/// Places, drops and draws the danmaku of one list that is fixed at the top, or at the bottom.
///
/// A danmaku takes the first rails, from the top or from the bottom, on which no other of the list
/// stands. One that can no longer be shown for the time it has to be is dropped; one for which
/// there is no room waits.
pub fn draw_fixed_danmakus(
    image: &mut RgbImage,
    params: &DrawParams,
    fixed_slots: &mut GrowableVec<Slot>,
    from_bottom: bool,
)
    requires
        old(image).wf(),
        params.wf(),
        params.accepts_all(old(fixed_slots)@),
    ensures
        final(image).wf(),
        ({
            let rule = Placement::Fixed { from_bottom };
            let v = verdicts(old(fixed_slots)@, *params, rule, old(fixed_slots)@.len());
            &&& final(fixed_slots)@ == settled(old(fixed_slots)@, v)
            &&& final(image)@ == painted(
                old(image)@,
                old(fixed_slots)@,
                *params,
                v,
                old(fixed_slots)@.len(),
            )
        }),
        final(fixed_slots).filler() == old(fixed_slots).filler(),
        rows_disjoint(old(fixed_slots)@, params.base_pitch) ==> rows_disjoint(
            final(fixed_slots)@,
            params.base_pitch,
        ),
{
    proof {
        if rows_disjoint(fixed_slots@, params.base_pitch) {
            law_fixed_rows_stay_disjoint(fixed_slots@, *params, from_bottom);
        }
    }
    place_and_draw(image, params, fixed_slots, Placement::Fixed { from_bottom })
}

/// Places, drops and draws the danmaku of one list that scrolls in one direction.
///
/// A danmaku takes the first rails from the top on which it comes no closer than the least gap to
/// one that was placed before, and on which none has been placed in this frame. One that can no
/// longer be shown for the time it has to be is dropped; one for which there is no room waits.
pub fn draw_scroll_danmakus(
    image: &mut RgbImage,
    params: &DrawParams,
    scroll_slots: &mut GrowableVec<Slot>,
    dir: Direction,
)
    requires
        old(image).wf(),
        params.wf(),
        params.accepts_all(old(scroll_slots)@),
    ensures
        final(image).wf(),
        ({
            let rule = Placement::Scroll { dir };
            let v = verdicts(old(scroll_slots)@, *params, rule, old(scroll_slots)@.len());
            &&& final(scroll_slots)@ == settled(old(scroll_slots)@, v)
            &&& final(image)@ == painted(
                old(image)@,
                old(scroll_slots)@,
                *params,
                v,
                old(scroll_slots)@.len(),
            )
        }),
        final(scroll_slots).filler() == old(scroll_slots).filler(),
        columns_apart(
            old(scroll_slots)@,
            params.base_pitch,
            params.min_space as int,
        ) ==> columns_apart(final(scroll_slots)@, params.base_pitch, params.min_space as int),
{
    proof {
        if columns_apart(scroll_slots@, params.base_pitch, params.min_space as int) {
            law_scrolling_columns_stay_apart(scroll_slots@, *params, dir);
        }
    }
    place_and_draw(image, params, scroll_slots, Placement::Scroll { dir })
}

/// The slot once danmaku that are gone at `now` have been taken out.
pub open spec fn buried(slot: Slot, now: Duration) -> Slot {
    if slot is Some && comp_of(slot).dead_line.nanos <= now.nanos {
        None
    } else {
        slot
    }
}

/// Takes out the danmaku that are gone at `dur`.
pub fn del_dead(slots: &mut GrowableVec<Slot>, dur: Duration)
    ensures
        final(slots)@ == old(slots)@.map_values(|slot: Slot| buried(slot, dur)),
        final(slots).filler() == old(slots).filler(),
{
    let ghost all = slots@;
    let len: usize = slots.len();
    let mut i: usize = 0;
    while i < len
        invariant
            i <= len,
            len == all.len(),
            slots@.len() == len,
            slots.filler() == old(slots).filler(),
            forall|j: int|
                0 <= j < len ==> #[trigger] slots@[j] == if j < i {
                    buried(all[j], dur)
                } else {
                    all[j]
                },
        decreases len - i,
    {
        let dead: bool = match &slots[i] {
            Some((_, comp)) => comp.dead_line.nanos <= dur.nanos,
            None => false,
        };
        if dead {
            slots.replace(i, None);
        }
        i = i + 1;
    }
    assert(slots@ =~= all.map_values(|slot: Slot| buried(slot, dur)));
}

/// The column that lies `speed` columns further on.
pub open spec fn moved(x: int, direction: Direction, speed: int) -> int {
    match direction {
        Direction::ToLeft => x - speed,
        Direction::ToRight => x + speed,
    }
}

/// Moves every one of the danmaku by `speed` columns.
pub fn scroll(comps: &mut [NormalComponent], direction: Direction, speed: u32)
    requires
        forall|i: int|
            0 <= i < old(comps)@.len() ==> i64::MIN <= moved(
                (#[trigger] old(comps)@[i]).x as int,
                direction,
                speed as int,
            ) <= i64::MAX,
    ensures
        final(comps)@.len() == old(comps)@.len(),
        forall|i: int|
            0 <= i < old(comps)@.len() ==> #[trigger] final(comps)@[i] == (NormalComponent {
                x: moved(old(comps)@[i].x as int, direction, speed as int) as i64,
                ..old(comps)@[i]
            }),
{
    let ghost all = comps@;
    let len: usize = comps.len();
    let mut i: usize = 0;
    while i < len
        invariant
            i <= len,
            len == all.len(),
            comps@.len() == len,
            forall|j: int|
                0 <= j < len ==> i64::MIN <= moved(
                    (#[trigger] all[j]).x as int,
                    direction,
                    speed as int,
                ) <= i64::MAX,
            forall|j: int|
                0 <= j < len ==> #[trigger] comps@[j] == if j < i {
                    NormalComponent {
                        x: moved(all[j].x as int, direction, speed as int) as i64,
                        ..all[j]
                    }
                } else {
                    all[j]
                },
        decreases len - i,
    {
        assert(comps@[i as int] == all[i as int]);
        step(&mut comps[i], direction, speed);
        i = i + 1;
    }
}

/// Moves the danmaku by `speed` columns.
fn step(comp: &mut NormalComponent, direction: Direction, speed: u32)
    requires
        i64::MIN <= moved(old(comp).x as int, direction, speed as int) <= i64::MAX,
    ensures
        *final(comp) == (NormalComponent {
            x: moved(old(comp).x as int, direction, speed as int) as i64,
            ..*old(comp)
        }),
{
    match direction {
        Direction::ToLeft => {
            comp.x = comp.x - speed as i64;
        },
        Direction::ToRight => {
            comp.x = comp.x + speed as i64;
        },
    }
}

/// The slot once its danmaku, if it has a place, has moved by `speed` columns.
pub open spec fn scrolled(slot: Slot, direction: Direction, speed: int) -> Slot {
    match slot {
        Some((dan, comp)) if comp.y is Some => Some(
            (
                dan,
                NormalComponent { x: moved(comp.x as int, direction, speed) as i64, ..comp },
            ),
        ),
        _ => slot,
    }
}

/// Moves every danmaku that has a place by `speed` columns.
pub fn scroll_slots(slots: &mut GrowableVec<Slot>, direction: Direction, speed: u32)
    requires
        forall|i: int|
            0 <= i < old(slots)@.len() && (#[trigger] old(slots)@[i]) is Some && comp_of(
                old(slots)@[i],
            ).y is Some ==> i64::MIN <= moved(
                comp_of(old(slots)@[i]).x as int,
                direction,
                speed as int,
            ) <= i64::MAX,
    ensures
        final(slots)@ == old(slots)@.map_values(
            |slot: Slot| scrolled(slot, direction, speed as int),
        ),
        final(slots).filler() == old(slots).filler(),
{
    let ghost all = slots@;
    let len: usize = slots.len();
    let mut i: usize = 0;
    while i < len
        invariant
            i <= len,
            len == all.len(),
            slots@.len() == len,
            slots.filler() == old(slots).filler(),
            forall|j: int|
                0 <= j < len && (#[trigger] all[j]) is Some && comp_of(all[j]).y is Some
                    ==> i64::MIN <= moved(comp_of(all[j]).x as int, direction, speed as int)
                    <= i64::MAX,
            forall|j: int|
                0 <= j < len ==> #[trigger] slots@[j] == if j < i {
                    scrolled(all[j], direction, speed as int)
                } else {
                    all[j]
                },
        decreases len - i,
    {
        assert(slots@[i as int] == all[i as int]);
        let slot = slots.slot_mut(i);
        if let Some((_, comp)) = slot {
            if comp.y.is_some() {
                step(comp, direction, speed);
            }
        }
        i = i + 1;
    }
    assert(slots@ =~= all.map_values(|slot: Slot| scrolled(slot, direction, speed as int)));
}

} // verus!
