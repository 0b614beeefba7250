//! What holds of danmaku on screen in every frame: they do not run into each other.

use crate::danmaku::Danmaku;
use crate::duration::Duration;
use crate::growable::put_at;
use crate::layout::{
    blocks, buried, comp_of, covers, first_free, from_bottom, held_by_placed, held_by_shown,
    lemma_marked_rails, marked, moved, rails_of, scrolled, settled, settled_slot, taken_rails,
    time_left, verdict, verdicts, Direction, DrawParams, NormalComponent, Placement, Slot,
    RAIL_OFFSET,
};
use vstd::arithmetic::div_mod::*;
use vstd::prelude::*;

verus! {

/// The two danmaku have places, and stand on a rail in common.
pub open spec fn share_rail(p: DrawParams, a: NormalComponent, b: NormalComponent) -> bool {
    &&& a.y is Some
    &&& b.y is Some
    &&& exists|r: int|
        #[trigger] covers(p, a.y->0 as int, a.n_rails as int, r) && covers(
            p,
            b.y->0 as int,
            b.n_rails as int,
            r,
        )
}

/// The two danmaku are at least the least gap apart.
pub open spec fn apart(p: DrawParams, a: NormalComponent, b: NormalComponent) -> bool {
    ||| a.x + a.width + p.min_space <= b.x
    ||| b.x + b.width + p.min_space <= a.x
}

/// No two danmaku of the list stand on a rail in common.
pub open spec fn rails_disjoint(slots: Seq<Slot>, p: DrawParams) -> bool {
    forall|i: int, j: int|
        0 <= i < j < slots.len() && (#[trigger] slots[i]) is Some && (#[trigger] slots[j]) is Some
            ==> !share_rail(p, comp_of(slots[i]), comp_of(slots[j]))
}

/// Any two danmaku of the list that stand on a rail in common are at least the least gap apart.
pub open spec fn gaps_kept(slots: Seq<Slot>, p: DrawParams) -> bool {
    forall|i: int, j: int|
        0 <= i < j < slots.len() && (#[trigger] slots[i]) is Some && (#[trigger] slots[j]) is Some
            && share_rail(p, comp_of(slots[i]), comp_of(slots[j])) ==> apart(
            p,
            comp_of(slots[i]),
            comp_of(slots[j]),
        )
}

/// Every verdict is the one that follows from those before it, and lasts.
pub proof fn lemma_verdict_at(slots: Seq<Slot>, p: DrawParams, rule: Placement, k: nat, m: nat)
    requires
        k < m,
    ensures
        verdicts(slots, p, rule, m).len() == m,
        verdicts(slots, p, rule, m)[k as int] == verdict(
            slots,
            p,
            rule,
            verdicts(slots, p, rule, k),
            k as int,
        ),
        forall|j: int|
            0 <= j < k ==> #[trigger] verdicts(slots, p, rule, k)[j] == verdicts(
                slots,
                p,
                rule,
                m,
            )[j],
        verdicts(slots, p, rule, k).len() == k,
    decreases m,
{
    if k > 0 {
        lemma_verdict_at(slots, p, rule, (k - 1) as nat, k);
    }
    if k < m - 1 {
        lemma_verdict_at(slots, p, rule, k, (m - 1) as nat);
    } else {
        assert(verdicts(slots, p, rule, k).len() == k);
    }
}

/// A danmaku that is placed takes a whole run of rails that are free for it.
pub proof fn law_placed_on_free_rails(
    slots: Seq<Slot>,
    p: DrawParams,
    rule: Placement,
    k: int,
)
    requires
        0 <= k < slots.len(),
        p.base_pitch > 0,
        verdicts(slots, p, rule, slots.len())[k] is Placed,
    ensures
        ({
            let before = verdicts(slots, p, rule, k as nat);
            let y = verdicts(slots, p, rule, slots.len())[k]->Placed_y;
            let t = y / p.base_pitch as int;
            &&& y == t * p.base_pitch
            &&& slots[k] is Some
            &&& comp_of(slots[k]).y is None
            &&& first_free(
                taken_rails(slots, p, rule, before, k),
                comp_of(slots[k]).n_rails as int,
                p.rail_cnt as int,
                from_bottom(rule),
                t,
            )
        }),
{
    lemma_verdict_at(slots, p, rule, k as nat, slots.len());
    let before = verdicts(slots, p, rule, k as nat);
    let taken = taken_rails(slots, p, rule, before, k);
    let n = comp_of(slots[k]).n_rails as int;
    let t = choose|t: int| first_free(taken, n, p.rail_cnt as int, from_bottom(rule), t);
    assert(t * p.base_pitch == p.base_pitch * t) by (nonlinear_arith);
    vstd::arithmetic::div_mod::lemma_div_multiples_vanish(t, p.base_pitch as int);
}

/// A danmaku that is placed in a frame shares no rail with one placed before it in the same frame.
proof fn lemma_placed_apart(slots: Seq<Slot>, p: DrawParams, rule: Placement, i: int, k: int)
    requires
        0 <= i < k < slots.len(),
        p.base_pitch > 0,
        verdicts(slots, p, rule, slots.len())[i] is Placed,
        verdicts(slots, p, rule, slots.len())[k] is Placed,
    ensures
        forall|r: int|
            !(#[trigger] covers(
                p,
                verdicts(slots, p, rule, slots.len())[i]->Placed_y,
                comp_of(slots[i]).n_rails as int,
                r,
            ) && covers(
                p,
                verdicts(slots, p, rule, slots.len())[k]->Placed_y,
                comp_of(slots[k]).n_rails as int,
                r,
            )),
{
    let v = verdicts(slots, p, rule, slots.len());
    law_placed_on_free_rails(slots, p, rule, k);
    lemma_verdict_at(slots, p, rule, k as nat, slots.len());
    let before = verdicts(slots, p, rule, k as nat);
    assert forall|r: int|
        !(#[trigger] covers(p, v[i]->Placed_y, comp_of(slots[i]).n_rails as int, r) && covers(
            p,
            v[k]->Placed_y,
            comp_of(slots[k]).n_rails as int,
            r,
        )) by {
        if covers(p, v[i]->Placed_y, comp_of(slots[i]).n_rails as int, r) && covers(
            p,
            v[k]->Placed_y,
            comp_of(slots[k]).n_rails as int,
            r,
        ) {
            assert(before[i] == v[i]);
            assert(held_by_placed(slots, p, before, i, r));
            assert(taken_rails(slots, p, rule, before, k).contains(r));
        }
    }
}

/// A danmaku that is placed in a frame shares no rail with one that was placed in an earlier frame
/// and keeps it off its rails.
proof fn lemma_placed_apart_from_shown(
    slots: Seq<Slot>,
    p: DrawParams,
    rule: Placement,
    i: int,
    k: int,
)
    requires
        0 <= i < slots.len(),
        0 <= k < slots.len(),
        p.base_pitch > 0,
        slots[i] is Some,
        comp_of(slots[i]).y is Some,
        verdicts(slots, p, rule, slots.len())[k] is Placed,
        blocks(rule, p, comp_of(slots[i]), comp_of(slots[k])),
    ensures
        forall|r: int|
            !(#[trigger] covers(
                p,
                comp_of(slots[i]).y->0 as int,
                comp_of(slots[i]).n_rails as int,
                r,
            ) && covers(
                p,
                verdicts(slots, p, rule, slots.len())[k]->Placed_y,
                comp_of(slots[k]).n_rails as int,
                r,
            )),
{
    let v = verdicts(slots, p, rule, slots.len());
    law_placed_on_free_rails(slots, p, rule, k);
    let before = verdicts(slots, p, rule, k as nat);
    assert forall|r: int|
        !(#[trigger] covers(
            p,
            comp_of(slots[i]).y->0 as int,
            comp_of(slots[i]).n_rails as int,
            r,
        ) && covers(p, v[k]->Placed_y, comp_of(slots[k]).n_rails as int, r)) by {
        if covers(p, comp_of(slots[i]).y->0 as int, comp_of(slots[i]).n_rails as int, r) && covers(
            p,
            v[k]->Placed_y,
            comp_of(slots[k]).n_rails as int,
            r,
        ) {
            assert(held_by_shown(slots, p, rule, k, i, r));
            assert(taken_rails(slots, p, rule, before, k).contains(r));
        }
    }
}

/// What a slot holds after its verdict, in terms of what it held before.
pub proof fn lemma_settled_at(slots: Seq<Slot>, p: DrawParams, rule: Placement, i: int)
    requires
        p.wf(),
        0 <= i < slots.len(),
    ensures
        ({
            let v = verdicts(slots, p, rule, slots.len());
            let after = settled(slots, v);
            &&& v.len() == slots.len()
            &&& after[i] == settled_slot(slots[i], v[i])
            &&& after[i] is Some ==> slots[i] is Some
            &&& v[i] is Placed ==> {
                &&& slots[i] is Some
                &&& after[i] is Some
                &&& comp_of(slots[i]).y is None
                &&& comp_of(after[i]).y is Some
                &&& comp_of(after[i]).y->0 == v[i]->Placed_y
                &&& comp_of(after[i]).x == comp_of(slots[i]).x
                &&& comp_of(after[i]).width == comp_of(slots[i]).width
                &&& comp_of(after[i]).n_rails == comp_of(slots[i]).n_rails
            }
            &&& after[i] is Some && !(v[i] is Placed) ==> after[i] == slots[i]
            &&& after[i] is Some && !(v[i] is Placed) && comp_of(after[i]).y is Some ==> v[i]
                is Shown
        }),
{
    lemma_verdict_at(slots, p, rule, i as nat, slots.len());
    let v = verdicts(slots, p, rule, slots.len());
    if v[i] is Placed {
        law_placed_on_free_rails(slots, p, rule, i);
        let t = v[i]->Placed_y / p.base_pitch as int;
        assert(0 <= t * p.base_pitch <= p.rail_cnt * p.base_pitch) by (nonlinear_arith)
            requires
                0 <= t <= p.rail_cnt,
                p.base_pitch > 0,
        ;
    }
}

/// Danmaku fixed at the top, or at the bottom, never stand on a rail in common: if none did before
/// a frame, none does after it.
pub proof fn law_fixed_never_collide(slots: Seq<Slot>, p: DrawParams, from_bottom: bool)
    requires
        p.wf(),
        rails_disjoint(slots, p),
    ensures
        ({
            let rule = Placement::Fixed { from_bottom };
            rails_disjoint(settled(slots, verdicts(slots, p, rule, slots.len())), p)
        }),
{
    let rule = Placement::Fixed { from_bottom };
    let v = verdicts(slots, p, rule, slots.len());
    let after = settled(slots, v);
    assert forall|i: int, j: int|
        0 <= i < j < after.len() && (#[trigger] after[i]) is Some && (#[trigger] after[j])
            is Some implies !share_rail(p, comp_of(after[i]), comp_of(after[j])) by {
        lemma_settled_at(slots, p, rule, i);
        lemma_settled_at(slots, p, rule, j);
        if share_rail(p, comp_of(after[i]), comp_of(after[j])) {
            if v[i] is Placed && v[j] is Placed {
                lemma_placed_apart(slots, p, rule, i, j);
            } else if v[j] is Placed {
                lemma_placed_apart_from_shown(slots, p, rule, i, j);
            } else if v[i] is Placed {
                lemma_placed_apart_from_shown(slots, p, rule, j, i);
            } else {
                assert(slots[i] is Some && slots[j] is Some);
            }
        }
    }
}

/// Danmaku that scroll in one direction never run into each other: if any two on a rail in common
/// were at least the least gap apart before a frame, any two are after it.
pub proof fn law_scrolling_never_collide(slots: Seq<Slot>, p: DrawParams, dir: Direction)
    requires
        p.wf(),
        gaps_kept(slots, p),
    ensures
        ({
            let rule = Placement::Scroll { dir };
            gaps_kept(settled(slots, verdicts(slots, p, rule, slots.len())), p)
        }),
{
    let rule = Placement::Scroll { dir };
    let v = verdicts(slots, p, rule, slots.len());
    let after = settled(slots, v);
    assert forall|i: int, j: int|
        0 <= i < j < after.len() && (#[trigger] after[i]) is Some && (#[trigger] after[j]) is Some
            && share_rail(p, comp_of(after[i]), comp_of(after[j])) implies apart(
        p,
        comp_of(after[i]),
        comp_of(after[j]),
    ) by {
        lemma_settled_at(slots, p, rule, i);
        lemma_settled_at(slots, p, rule, j);
        if v[i] is Placed && v[j] is Placed {
            lemma_placed_apart(slots, p, rule, i, j);
        } else if v[j] is Placed {
            if blocks(rule, p, comp_of(slots[i]), comp_of(slots[j])) {
                lemma_placed_apart_from_shown(slots, p, rule, i, j);
            }
        } else if v[i] is Placed {
            if blocks(rule, p, comp_of(slots[j]), comp_of(slots[i])) {
                lemma_placed_apart_from_shown(slots, p, rule, j, i);
            }
        } else {
            assert(slots[i] is Some && slots[j] is Some);
        }
    }
}

/// Moving all danmaku that have a place by the same number of columns keeps their gaps.
pub proof fn law_moving_keeps_gaps(
    slots: Seq<Slot>,
    p: DrawParams,
    direction: Direction,
    speed: int,
)
    requires
        gaps_kept(slots, p),
        forall|i: int|
            0 <= i < slots.len() && (#[trigger] slots[i]) is Some && comp_of(slots[i]).y is Some
                ==> i64::MIN <= moved(comp_of(slots[i]).x as int, direction, speed) <= i64::MAX,
    ensures
        gaps_kept(slots.map_values(|slot: Slot| scrolled(slot, direction, speed)), p),
{
    let after = slots.map_values(|slot: Slot| scrolled(slot, direction, speed));
    assert forall|i: int, j: int|
        0 <= i < j < after.len() && (#[trigger] after[i]) is Some && (#[trigger] after[j]) is Some
            && share_rail(p, comp_of(after[i]), comp_of(after[j])) implies apart(
        p,
        comp_of(after[i]),
        comp_of(after[j]),
    ) by {
        assert(after[i] == scrolled(slots[i], direction, speed));
        assert(after[j] == scrolled(slots[j], direction, speed));
        assert(slots[i] is Some && slots[j] is Some);
        let r = choose|r: int|
            #[trigger] covers(
                p,
                comp_of(after[i]).y->0 as int,
                comp_of(after[i]).n_rails as int,
                r,
            ) && covers(
                p,
                comp_of(after[j]).y->0 as int,
                comp_of(after[j]).n_rails as int,
                r,
            );
        assert(covers(p, comp_of(slots[i]).y->0 as int, comp_of(slots[i]).n_rails as int, r));
        assert(share_rail(p, comp_of(slots[i]), comp_of(slots[j])));
    }
}

/// Taking out danmaku that are gone makes no two of the others collide.
pub proof fn law_burying_is_safe(slots: Seq<Slot>, p: DrawParams, now: Duration)
    ensures
        gaps_kept(slots, p) ==> gaps_kept(
            slots.map_values(|slot: Slot| buried(slot, now)),
            p,
        ),
        rails_disjoint(slots, p) ==> rails_disjoint(
            slots.map_values(|slot: Slot| buried(slot, now)),
            p,
        ),
{
    let after = slots.map_values(|slot: Slot| buried(slot, now));
    assert forall|i: int| 0 <= i < after.len() && (#[trigger] after[i]) is Some implies after[i]
        == slots[i] && slots[i] is Some by {}
}

/// A danmaku that has no place yet collides with nothing.
pub proof fn law_waiting_is_safe(slots: Seq<Slot>, p: DrawParams, index: int, slot: Slot)
    requires
        0 <= index <= slots.len(),
        slot is Some,
        comp_of(slot).y is None,
    ensures
        gaps_kept(slots, p) ==> gaps_kept(put_at(slots, index, slot), p),
        rails_disjoint(slots, p) ==> rails_disjoint(put_at(slots, index, slot), p),
{
    let after = put_at(slots, index, slot);
    assert forall|i: int| 0 <= i < after.len() && i != index implies #[trigger] after[i]
        == slots[i] by {}
    assert(after[index] == slot);
}

/// Once placed, a danmaku keeps its row and its rails for as long as it is shown.
pub proof fn law_placed_stay_put(slots: Seq<Slot>, p: DrawParams, rule: Placement, i: int)
    requires
        p.wf(),
        0 <= i < slots.len(),
        slots[i] is Some,
        comp_of(slots[i]).y is Some,
    ensures
        settled(slots, verdicts(slots, p, rule, slots.len()))[i] == slots[i],
{
    lemma_verdict_at(slots, p, rule, i as nat, slots.len());
}

/// A danmaku without a place is dropped in a frame exactly when it can no longer be shown for the
/// time it has to be, whatever room there is.
pub proof fn law_dropped_when_late(slots: Seq<Slot>, p: DrawParams, rule: Placement, i: int)
    requires
        p.wf(),
        0 <= i < slots.len(),
        slots[i] is Some,
        comp_of(slots[i]).y is None,
    ensures
        settled(slots, verdicts(slots, p, rule, slots.len()))[i] is None <==> time_left(
            comp_of(slots[i]),
            p.now,
        ) < comp_of(slots[i]).travel.nanos,
{
    lemma_verdict_at(slots, p, rule, i as nat, slots.len());
}

/// A danmaku that fits between the rails stands within them.
pub proof fn law_placed_within_area(slots: Seq<Slot>, p: DrawParams, rule: Placement, i: int)
    requires
        p.wf(),
        0 <= i < slots.len(),
        verdicts(slots, p, rule, slots.len())[i] is Placed,
        comp_of(slots[i]).n_rails <= p.rail_cnt,
    ensures
        ({
            let y = verdicts(slots, p, rule, slots.len())[i]->Placed_y;
            0 <= y && y + comp_of(slots[i]).n_rails * p.base_pitch <= p.rail_cnt * p.base_pitch
        }),
{
    law_placed_on_free_rails(slots, p, rule, i);
    let y = verdicts(slots, p, rule, slots.len())[i]->Placed_y;
    let t = y / p.base_pitch as int;
    let n = comp_of(slots[i]).n_rails;
    assert(0 <= t * p.base_pitch && t * p.base_pitch + n * p.base_pitch <= p.rail_cnt
        * p.base_pitch) by (nonlinear_arith)
        requires
            0 <= t,
            t + n <= p.rail_cnt,
            p.base_pitch > 0,
    ;
}

/// What placing and drawing ask of a list still holds of it after a frame.
pub proof fn law_accepted_stays_accepted(slots: Seq<Slot>, p: DrawParams, rule: Placement)
    requires
        p.wf(),
        p.accepts_all(slots),
    ensures
        p.accepts_all(settled(slots, verdicts(slots, p, rule, slots.len()))),
{
    let v = verdicts(slots, p, rule, slots.len());
    let after = settled(slots, v);
    assert forall|i: int| 0 <= i < after.len() && (#[trigger] after[i]) is Some implies p.accepts(
        comp_of(after[i]),
    ) by {
        lemma_settled_at(slots, p, rule, i);
        assert(slots[i] is Some);
        if v[i] is Placed {
            law_placed_on_free_rails(slots, p, rule, i);
            let y = v[i]->Placed_y;
            let t = y / p.base_pitch as int;
            assert(p.can_draw_on(comp_of(slots[i]), t));
            assert(0 <= t * p.base_pitch <= p.rail_cnt * p.base_pitch) by (nonlinear_arith)
                requires
                    0 <= t <= p.rail_cnt,
                    p.base_pitch > 0,
            ;
            assert(t * p.base_pitch == p.base_pitch * t) by (nonlinear_arith);
            vstd::arithmetic::div_mod::lemma_mod_multiples_basic(t, p.base_pitch as int);
        }
    }
}

/// Rails that have been marked are not found free: what finds room stands clear of them.
pub proof fn law_marked_rails_are_not_found(
    occupied: Set<usize>,
    track: int,
    n: int,
    wanted: int,
    rail_cnt: int,
    upward: bool,
    i: int,
)
    requires
        track >= 0,
        n > 0,
        wanted > 0,
        RAIL_OFFSET + track + n <= usize::MAX,
        first_free(rails_of(marked(occupied, track, n)), wanted, rail_cnt, upward, i),
    ensures
        i + wanted <= track || track + n <= i,
{
    let taken = rails_of(marked(occupied, track, n));
    lemma_marked_rails(occupied, track, n);
    if i < track + n && track < i + wanted {
        let r = if i < track {
            track
        } else {
            i
        };
        assert(taken.contains(r));
    }
}

/// A row of the danmaku area, in pixels, is one that a danmaku takes up, once it has a place.
pub open spec fn takes_row(base_pitch: u32, comp: NormalComponent, row: int) -> bool {
    comp.y is Some && comp.y->0 <= row < comp.y->0 + comp.n_rails * base_pitch
}

/// There is a row of pixels that both danmaku take up.
pub open spec fn rows_meet(base_pitch: u32, a: NormalComponent, b: NormalComponent) -> bool {
    exists|row: int| #[trigger] takes_row(base_pitch, a, row) && takes_row(base_pitch, b, row)
}

/// No two danmaku of the list take up a row of pixels in common.
pub open spec fn rows_disjoint(slots: Seq<Slot>, base_pitch: u32) -> bool {
    forall|i: int, j: int|
        0 <= i < j < slots.len() && (#[trigger] slots[i]) is Some && (#[trigger] slots[j]) is Some
            ==> !rows_meet(base_pitch, comp_of(slots[i]), comp_of(slots[j]))
}

/// Any two danmaku of the list that take up a row of pixels in common have `gap` columns or more
/// between them.
pub open spec fn columns_apart(slots: Seq<Slot>, base_pitch: u32, gap: int) -> bool {
    forall|i: int, j: int|
        0 <= i < j < slots.len() && (#[trigger] slots[i]) is Some && (#[trigger] slots[j]) is Some
            && rows_meet(base_pitch, comp_of(slots[i]), comp_of(slots[j])) ==> {
            let a = comp_of(slots[i]);
            let b = comp_of(slots[j]);
            a.x + a.width + gap <= b.x || b.x + b.width + gap <= a.x
        }
}

/// A danmaku on a whole rail takes up the rows of its rails: those from its first rail on, one pitch
/// for each.
proof fn lemma_rows_of_rails(p: DrawParams, comp: NormalComponent, row: int)
    requires
        p.base_pitch > 0,
        comp.y is Some,
        comp.y->0 >= 0,
        (comp.y->0 as int) % (p.base_pitch as int) == 0,
    ensures
        takes_row(p.base_pitch, comp, row) <==> covers(
            p,
            comp.y->0 as int,
            comp.n_rails as int,
            row / p.base_pitch as int,
        ),
{
    let w = p.base_pitch as int;
    let y = comp.y->0 as int;
    let t = y / w;
    let n = comp.n_rails as int;
    let r = row / w;
    lemma_fundamental_div_mod(y, w);
    lemma_fundamental_div_mod(row, w);
    assert(y == t * w) by (nonlinear_arith)
        requires
            y == w * t + y % w,
            y % w == 0,
    ;
    assert((t + n) * w == t * w + n * w) by (nonlinear_arith);
    assert(t <= r ==> y <= row) by (nonlinear_arith)
        requires
            y == t * w,
            row == w * r + row % w,
            row % w >= 0,
            w > 0,
    ;
    assert(y <= row ==> t <= r) by (nonlinear_arith)
        requires
            y == t * w,
            row == w * r + row % w,
            row % w < w,
            w > 0,
    ;
    assert(r < t + n ==> row < (t + n) * w) by (nonlinear_arith)
        requires
            row == w * r + row % w,
            row % w < w,
            w > 0,
    ;
    assert(row < (t + n) * w ==> r < t + n) by (nonlinear_arith)
        requires
            row == w * r + row % w,
            row % w >= 0,
            w > 0,
    ;
}

/// Two danmaku on whole rails take up a row in common exactly when they stand on a rail in common.
proof fn lemma_rows_meet_on_rails(p: DrawParams, a: NormalComponent, b: NormalComponent)
    requires
        p.base_pitch > 0,
        p.on_rails(a),
        p.on_rails(b),
    ensures
        rows_meet(p.base_pitch, a, b) <==> share_rail(p, a, b),
{
    let w = p.base_pitch as int;
    if rows_meet(p.base_pitch, a, b) {
        let row = choose|row: int| #[trigger]
            takes_row(p.base_pitch, a, row) && takes_row(p.base_pitch, b, row);
        lemma_rows_of_rails(p, a, row);
        lemma_rows_of_rails(p, b, row);
        assert(covers(p, a.y->0 as int, a.n_rails as int, row / w));
    }
    if share_rail(p, a, b) {
        let r = choose|r: int|
            #[trigger] covers(p, a.y->0 as int, a.n_rails as int, r) && covers(
                p,
                b.y->0 as int,
                b.n_rails as int,
                r,
            );
        let row = r * w;
        lemma_div_by_multiple(r, w);
        lemma_rows_of_rails(p, a, row);
        lemma_rows_of_rails(p, b, row);
        assert(takes_row(p.base_pitch, a, row));
    }
}

/// What holds of a list on whole rails in rows of pixels holds of it in rails.
pub proof fn lemma_list_on_rails(slots: Seq<Slot>, p: DrawParams)
    requires
        p.base_pitch > 0,
        forall|i: int|
            0 <= i < slots.len() && (#[trigger] slots[i]) is Some ==> p.on_rails(comp_of(slots[i])),
    ensures
        rows_disjoint(slots, p.base_pitch) <==> rails_disjoint(slots, p),
        columns_apart(slots, p.base_pitch, p.min_space as int) <==> gaps_kept(slots, p),
{
    assert forall|i: int, j: int|
        0 <= i < j < slots.len() && (#[trigger] slots[i]) is Some && (#[trigger] slots[j])
            is Some implies rows_meet(p.base_pitch, comp_of(slots[i]), comp_of(slots[j]))
        == share_rail(p, comp_of(slots[i]), comp_of(slots[j])) by {
        lemma_rows_meet_on_rails(p, comp_of(slots[i]), comp_of(slots[j]));
    }
}

/// Danmaku fixed at the top, or at the bottom, are never drawn over each other: if no two took up a
/// row of pixels in common before a frame, no two do after it. A danmaku takes up one pitch for
/// every rail that it is high.
pub proof fn law_fixed_rows_stay_disjoint(slots: Seq<Slot>, p: DrawParams, from_bottom: bool)
    requires
        p.wf(),
        p.accepts_all(slots),
        rows_disjoint(slots, p.base_pitch),
    ensures
        rows_disjoint(
            settled(
                slots,
                verdicts(slots, p, Placement::Fixed { from_bottom }, slots.len()),
            ),
            p.base_pitch,
        ),
{
    let rule = Placement::Fixed { from_bottom };
    let after = settled(slots, verdicts(slots, p, rule, slots.len()));
    law_accepted_stays_accepted(slots, p, rule);
    lemma_list_on_rails(slots, p);
    lemma_list_on_rails(after, p);
    law_fixed_never_collide(slots, p, from_bottom);
}

/// Danmaku that scroll in one direction are never drawn over each other, nor closer to each other
/// than the least gap: if any two that took up a row of pixels in common had that many columns
/// between them before a frame, any two have after it.
pub proof fn law_scrolling_columns_stay_apart(slots: Seq<Slot>, p: DrawParams, dir: Direction)
    requires
        p.wf(),
        p.accepts_all(slots),
        columns_apart(slots, p.base_pitch, p.min_space as int),
    ensures
        columns_apart(
            settled(slots, verdicts(slots, p, Placement::Scroll { dir }, slots.len())),
            p.base_pitch,
            p.min_space as int,
        ),
{
    let rule = Placement::Scroll { dir };
    let after = settled(slots, verdicts(slots, p, rule, slots.len()));
    law_accepted_stays_accepted(slots, p, rule);
    lemma_list_on_rails(slots, p);
    lemma_list_on_rails(after, p);
    law_scrolling_never_collide(slots, p, dir);
}

/// After a frame, the danmaku in slot `j` stands in the way of that of slot `i` at row `y`: the rows
/// meet, and it is fixed, or has found its place in this frame, or leaves no gap to where the other
/// enters.
pub open spec fn hinders(
    before: Seq<Slot>,
    after: Seq<Slot>,
    p: DrawParams,
    rule: Placement,
    i: int,
    j: int,
    y: int,
) -> bool {
    let other = comp_of(after[j]);
    let comp = comp_of(before[i]);
    &&& j != i
    &&& after[j] is Some
    &&& exists|row: int|
        y <= row < y + comp.n_rails * p.base_pitch && #[trigger] takes_row(p.base_pitch, other, row)
    &&& comp_of(before[j]).y is Some ==> match rule {
        Placement::Fixed { .. } => true,
        Placement::Scroll { dir: Direction::ToLeft } => comp.x < other.x + other.width
            + p.min_space,
        Placement::Scroll { dir: Direction::ToRight } => other.x < comp.x + comp.width
            + p.min_space,
    }
}

/// Where there is a free run of rails, there is a first one.
proof fn lemma_first_free_exists(
    taken: Set<int>,
    n: int,
    rail_cnt: int,
    upward: bool,
    t: int,
)
    requires
        0 <= t <= crate::layout::last_start(n, rail_cnt),
        crate::layout::run_free(taken, t, n),
    ensures
        exists|c: int| first_free(taken, n, rail_cnt, upward, c),
    decreases
        if upward {
            crate::layout::last_start(n, rail_cnt) - t
        } else {
            t
        },
{
    if !first_free(taken, n, rail_cnt, upward, t) {
        let j = choose|j: int|
            0 <= j <= crate::layout::last_start(n, rail_cnt) && (if upward {
                j > t
            } else {
                j < t
            }) && #[trigger] crate::layout::run_free(taken, j, n);
        lemma_first_free_exists(taken, n, rail_cnt, upward, j);
    }
}

/// A danmaku that can still be shown long enough finds room where there is some: if nothing stands in
/// its way on rail `t`, it is placed there in this frame or, searched from the same edge, before it.
pub proof fn law_room_is_found(slots: Seq<Slot>, p: DrawParams, rule: Placement, i: int, t: int)
    requires
        p.wf(),
        p.accepts_all(slots),
        0 <= i < slots.len(),
        slots[i] is Some,
        comp_of(slots[i]).y is None,
        comp_of(slots[i]).dead_line.nanos >= p.now.nanos + comp_of(slots[i]).travel.nanos,
        0 <= t,
        t + comp_of(slots[i]).n_rails <= p.rail_cnt,
    ensures
        ({
            let after = settled(slots, verdicts(slots, p, rule, slots.len()));
            ||| exists|j: int|
                0 <= j < slots.len() && #[trigger] hinders(
                    slots,
                    after,
                    p,
                    rule,
                    i,
                    j,
                    t * p.base_pitch,
                )
            ||| after[i] is Some && comp_of(after[i]).y is Some && (if rule
                == (Placement::Fixed { from_bottom: true }) {
                comp_of(after[i]).y->0 >= t * p.base_pitch
            } else {
                comp_of(after[i]).y->0 <= t * p.base_pitch
            })
        }),
{
    let v = verdicts(slots, p, rule, slots.len());
    let after = settled(slots, v);
    let comp = comp_of(slots[i]);
    let n = comp.n_rails as int;
    let w = p.base_pitch as int;
    let before = verdicts(slots, p, rule, i as nat);
    let taken = taken_rails(slots, p, rule, before, i);
    lemma_verdict_at(slots, p, rule, i as nat, slots.len());
    law_accepted_stays_accepted(slots, p, rule);
    if crate::layout::run_free(taken, t, n) {
        lemma_first_free_exists(taken, n, p.rail_cnt as int, from_bottom(rule), t);
        assert(v[i] is Placed);
        law_placed_on_free_rails(slots, p, rule, i);
        lemma_settled_at(slots, p, rule, i);
        let c = v[i]->Placed_y / w;
        assert(c <= t ==> c * w <= t * w) by (nonlinear_arith)
            requires
                w > 0,
        ;
        assert(c >= t ==> c * w >= t * w) by (nonlinear_arith)
            requires
                w > 0,
        ;
    } else {
        let r = choose|r: int| t <= r < t + n && #[trigger] taken.contains(r);
        let row = r * w;
        lemma_div_by_multiple(r, w);
        assert(t * w <= row < t * w + n * w) by (nonlinear_arith)
            requires
                row == r * w,
                t <= r < t + n,
                w > 0,
        ;
        let j = if exists|k: int|
            0 <= k < slots.len() && #[trigger] held_by_shown(slots, p, rule, i, k, r) {
            choose|k: int| 0 <= k < slots.len() && #[trigger] held_by_shown(slots, p, rule, i, k, r)
        } else {
            choose|k: int| 0 <= k < i && #[trigger] held_by_placed(slots, p, before, k, r)
        };
        assert(before.len() == i);
        lemma_settled_at(slots, p, rule, j);
        lemma_verdict_at(slots, p, rule, j as nat, slots.len());
        if comp_of(slots[j]).y is None {
            assert(before[j] == v[j]);
            law_placed_on_free_rails(slots, p, rule, j);
        }
        assert(p.accepts(comp_of(after[j])));
        lemma_rows_of_rails(p, comp_of(after[j]), row);
        assert(takes_row(p.base_pitch, comp_of(after[j]), row));
        assert(hinders(slots, after, p, rule, i, j, t * p.base_pitch));
    }
}

/// A danmaku, standing at another row.
pub open spec fn at_row(comp: NormalComponent, y: Option<i64>) -> NormalComponent {
    NormalComponent { y, ..comp }
}

/// A danmaku without a place leaves its list in a frame exactly when the time it is to be shown for
/// would end after its deadline; one with a place, or with time enough, stays, and only its row can
/// change.
pub proof fn law_only_the_late_are_dropped(
    slots: Seq<Slot>,
    p: DrawParams,
    rule: Placement,
    i: int,
    danmaku: Danmaku,
    comp: NormalComponent,
)
    requires
        p.wf(),
        0 <= i < slots.len(),
        slots[i] == Some((danmaku, comp)),
        comp.travel.nanos > 0,
    ensures
        ({
            let after = settled(slots, verdicts(slots, p, rule, slots.len()))[i];
            &&& after is None <==> comp.y is None && p.now.nanos + comp.travel.nanos
                > comp.dead_line.nanos
            &&& after is Some ==> exists|y: Option<i64>|
                after == Some((danmaku, #[trigger] at_row(comp, y)))
            &&& comp.y is Some ==> after == slots[i]
        }),
{
    lemma_verdict_at(slots, p, rule, i as nat, slots.len());
    let after = settled(slots, verdicts(slots, p, rule, slots.len()))[i];
    if after is Some {
        let y = comp_of(after).y;
        assert(after == Some((danmaku, at_row(comp, y))));
    }
}

/// A danmaku is taken out of its list in the frame at which its deadline has come, and not before;
/// until then it stays as it is.
pub proof fn law_gone_at_deadline(danmaku: Danmaku, comp: NormalComponent, now: Duration)
    ensures
        buried(Some((danmaku, comp)), now) == if comp.dead_line.nanos <= now.nanos {
            None
        } else {
            Some((danmaku, comp))
        },
        buried(None, now) is None,
{
}

/// In a frame a danmaku with a place moves `speed` columns to the left, or to the right; nothing else
/// about it changes, and one without a place stays where it enters.
pub proof fn law_moves_by_speed(danmaku: Danmaku, comp: NormalComponent, speed: u32)
    requires
        i64::MIN <= comp.x - speed,
        comp.x + speed <= i64::MAX,
    ensures
        scrolled(Some((danmaku, comp)), Direction::ToLeft, speed as int) == Some(
            (
                danmaku,
                NormalComponent {
                    x: if comp.y is Some {
                        (comp.x - speed) as i64
                    } else {
                        comp.x
                    },
                    ..comp
                },
            ),
        ),
        scrolled(Some((danmaku, comp)), Direction::ToRight, speed as int) == Some(
            (
                danmaku,
                NormalComponent {
                    x: if comp.y is Some {
                        (comp.x + speed) as i64
                    } else {
                        comp.x
                    },
                    ..comp
                },
            ),
        ),
{
}

/// A danmaku is as many rails high as its ink needs, and no more: the ink at a font size is to that
/// at the standard size of 25 as the sizes are.
pub proof fn law_rails_hold_the_ink(ink_ref: u32, base_pitch: u32, font_size: nat)
    requires
        base_pitch > 0,
        ink_ref * font_size <= 25 * u32::MAX,
    ensures
        ({
            let n = crate::layout::rails_needed(
                ink_ref as int,
                base_pitch as int,
                font_size as int,
            );
            &&& n >= 1
            &&& n * base_pitch * 25 >= ink_ref * font_size
            &&& n > 1 ==> (n - 1) * base_pitch * 25 < ink_ref * font_size
        }),
{
    let a = ink_ref * font_size;
    let w = base_pitch as int;
    let ink = crate::layout::ceil_div(a, 25);
    let needed = crate::layout::ceil_div(ink, w);
    assert(a >= 0) by (nonlinear_arith)
        requires
            a == ink_ref * font_size,
            ink_ref >= 0,
            font_size >= 0,
    ;
    assert(0 <= ink <= u32::MAX);
    assert(ink as u32 as int == ink);
    lemma_fundamental_div_mod(ink, w);
    lemma_mod_bound(ink, w);
    assert(needed * w >= ink && (needed - 1) * w < ink) by (nonlinear_arith)
        requires
            ink == w * (ink / w) + ink % w,
            0 <= ink % w < w,
            needed == if ink % w == 0 {
                ink / w
            } else {
                ink / w + 1
            },
            w > 0,
    ;
    assert(25 * ink >= a && 25 * (ink - 1) < a);
    let n = crate::layout::rails_needed(ink_ref as int, w, font_size as int);
    if n != needed {
        assert(needed <= 1 && n == 1);
        assert(1 * w >= needed * w) by (nonlinear_arith)
            requires
                needed <= 1,
                w > 0,
        ;
    }
}

} // verus!
