//! What corrected times and the changes that are told of them mean, moment by
//! moment and line by line.

use crate::anchor::{in_order, Anchor};
use crate::engine::{
    anchors_in_range, corrected, is_stale, lemma_anchors_in_range, nearest_confidence, recomputed,
    SubtitleState, TIME_LIMIT_MS,
};
use crate::engine_laws::law_changes_are_those_of_the_lines;
use crate::proto::LineChange;
use crate::reals::lemma_times_zero;
use crate::rounding::two_to;
use crate::single::narrowed;
use crate::warp::{law_shift_is_flat_outside, lemma_split, shift_at};
use crate::warp_laws::law_shift_is_linear_between_anchors;
use vstd::prelude::*;

verus! {

/// How far apart two moments are.
pub open spec fn distance(a: int, b: int) -> int {
    if a <= b {
        b - a
    } else {
        a - b
    }
}

/// The confidence at a moment is that of an anchor which no other is nearer
/// than: of two equally near ones on either side the earlier, and of several
/// at one place the one next to the moment in the list.
pub proof fn law_confidence_is_of_the_nearest(anchors: Seq<Anchor>, t: int) -> (j: int)
    requires
        in_order(anchors),
        anchors.len() > 0,
    ensures
        0 <= j < anchors.len(),
        nearest_confidence(anchors, t) == anchors[j].confidence,
        forall|m: int|
            0 <= m < anchors.len() ==> {
                let (near, other) = (
                    anchors[j].film_position_ms as int,
                    (#[trigger] anchors[m]).film_position_ms as int,
                );
                &&& distance(near, t) <= distance(other, t)
                &&& distance(near, t) == distance(other, t) ==> near <= other
                &&& near == other && near <= t ==> m <= j
                &&& near == other && near > t ==> m >= j
            },
{
    let k = lemma_split(anchors, t);
    let n = anchors.len() as int;
    if k == 0 {
        0
    } else if k >= n {
        n - 1
    } else if t - anchors[k - 1].film_position_ms <= anchors[k].film_position_ms - t {
        k - 1
    } else {
        k
    }
}

/// Without anchors nothing is sure.
pub proof fn law_no_anchors_no_confidence(t: int)
    ensures
        nearest_confidence(Seq::empty(), t).value() == 0 as real,
{
    let none = nearest_confidence(Seq::empty(), t);
    assert(none.significand() == 0);
    lemma_times_zero(two_to(none.unit()));
}

/// Each change tells how a line moved: from the times that it had to those
/// that it has now, which are not the same. The change of its shift lies
/// between the move of its start and the move of its end, is the mean of the
/// two cut off toward zero, and is the move itself where both are the same.
/// The confidence is that at the original start.
pub proof fn law_changes_tell_the_moves(
    before: SubtitleState,
    anchors: Seq<Anchor>,
    after: SubtitleState,
    changes: Seq<LineChange>,
    k: int,
)
    requires
        before.wf(),
        before.in_range(),
        after.in_range(),
        recomputed(Some(before), anchors, Some(after), changes),
        0 <= k < changes.len(),
    ensures
        ({
            let c = changes[k];
            let i = c.line_index as int;
            let start_move = c.new_start_ms - c.old_start_ms;
            let end_move = c.new_end_ms - c.old_end_ms;
            &&& 0 <= i < before.original_timespans@.len()
            &&& c.old_start_ms == before.corrected_start_ms@[i]
            &&& c.old_end_ms == before.corrected_end_ms@[i]
            &&& c.new_start_ms == after.corrected_start_ms@[i]
            &&& c.new_end_ms == after.corrected_end_ms@[i]
            &&& start_move != 0 || end_move != 0
            &&& start_move == end_move ==> c.delta_change_ms == start_move
            &&& start_move <= end_move ==> start_move <= c.delta_change_ms <= end_move
            &&& start_move >= end_move ==> start_move >= c.delta_change_ms >= end_move
            &&& start_move + end_move >= 0 ==> 0 <= start_move + end_move - 2 * c.delta_change_ms
                <= 1
            &&& start_move + end_move <= 0 ==> 0 <= 2 * c.delta_change_ms - start_move - end_move
                <= 1
            &&& c.confidence == narrowed(
                nearest_confidence(anchors, before.original_timespans@[i].0 as int),
            )
        }),
{
    law_changes_are_those_of_the_lines(
        before,
        anchors,
        before.original_timespans@.len() as int,
    );
    let c = changes[k];
    let i = c.line_index as int;
    assert(after.corrected_start_ms@[i] == corrected(anchors, before.original_timespans@[i].0));
    assert(after.corrected_end_ms@[i] == corrected(anchors, before.original_timespans@[i].1));
    assert(before.corrected_start_ms@[i] == c.old_start_ms);
    assert(before.corrected_end_ms@[i] == c.old_end_ms);
}

/// Every line that moved is told of, once and in the order of the lines.
pub proof fn law_every_move_is_told(
    before: SubtitleState,
    anchors: Seq<Anchor>,
    after: SubtitleState,
    changes: Seq<LineChange>,
    i: int,
) -> (k: int)
    requires
        before.wf(),
        before.in_range(),
        recomputed(Some(before), anchors, Some(after), changes),
        0 <= i < before.original_timespans@.len(),
    ensures
        before.corrected_start_ms@[i] != after.corrected_start_ms@[i]
            || before.corrected_end_ms@[i] != after.corrected_end_ms@[i] ==> 0 <= k < changes.len()
            && changes[k].line_index == i,
        forall|m: int, j: int|
            0 <= m < j < changes.len() ==> (#[trigger] changes[m]).line_index < (
            #[trigger] changes[j]).line_index,
{
    law_changes_are_those_of_the_lines(
        before,
        anchors,
        before.original_timespans@.len() as int,
    );
    assert(after.corrected_start_ms@[i] == corrected(anchors, before.original_timespans@[i].0));
    assert(after.corrected_end_ms@[i] == corrected(anchors, before.original_timespans@[i].1));
    if is_stale(before, anchors, i) {
        choose|k: int| 0 <= k < changes.len() && (#[trigger] changes[k]).line_index == i
    } else {
        0
    }
}

/// Recomputing touches nothing but the corrected times, and goes by the
/// original times of each line alone: both corrected times of a line are what
/// the anchors make of its original times.
pub proof fn law_corrected_times_follow_the_anchors(
    before: SubtitleState,
    anchors: Seq<Anchor>,
    after: SubtitleState,
    changes: Seq<LineChange>,
    i: int,
)
    requires
        before.wf(),
        before.in_range(),
        in_order(anchors),
        anchors_in_range(anchors),
        recomputed(Some(before), anchors, Some(after), changes),
        0 <= i < before.original_timespans@.len(),
    ensures
        after.original_timespans == before.original_timespans,
        after.line_texts == before.line_texts,
        after.raw_content == before.raw_content,
        after.format_str == before.format_str,
        after.corrected_start_ms@.len() == before.original_timespans@.len(),
        after.corrected_end_ms@.len() == before.original_timespans@.len(),
        follows_anchors(
            anchors,
            before.original_timespans@[i].0 as int,
            after.corrected_start_ms@[i] as int,
        ),
        follows_anchors(
            anchors,
            before.original_timespans@[i].1 as int,
            after.corrected_end_ms@[i] as int,
        ),
{
    let (start, end) = before.original_timespans@[i];
    assert(after.corrected_start_ms@[i] == corrected(anchors, start));
    assert(after.corrected_end_ms@[i] == corrected(anchors, end));
    lemma_corrected_follows(anchors, start);
    lemma_corrected_follows(anchors, end);
}

/// Whether a time that was `t` has been corrected as the anchors say: not at
/// all without anchors; by the shift of the first before it and by that of
/// the last from it on; and between two neighbours along the straight line
/// from one to the other, cut off toward zero, as far as doubles tell it.
pub open spec fn follows_anchors(anchors: Seq<Anchor>, t: int, now: int) -> bool {
    &&& anchors.len() == 0 ==> now == t
    &&& anchors.len() > 0 && t < anchors[0].film_position_ms ==> now == t + anchors[0].delta_ms
    &&& anchors.len() > 0 && t >= anchors.last().film_position_ms ==> now == t
        + anchors.last().delta_ms
    &&& forall|i: int|
        0 < i < anchors.len() && t < (#[trigger] anchors[i]).film_position_ms
            ==> follows_neighbours(anchors[i - 1], anchors[i], t, now)
}

/// Whether a time between two anchors has been corrected along the straight
/// line from one to the other, to within a millisecond and a thousandth.
pub open spec fn follows_neighbours(prev: Anchor, next: Anchor, t: int, now: int) -> bool {
    let span = next.film_position_ms - prev.film_position_ms;
    let line = span * prev.delta_ms + (t - prev.film_position_ms) * (next.delta_ms - prev.delta_ms);
    let moved = span * (now - t);
    prev.film_position_ms <= t < next.film_position_ms && -0x100_0000_0000 <= prev.delta_ms
        <= 0x100_0000_0000 && -0x100_0000_0000 <= next.delta_ms <= 0x100_0000_0000 ==> {
        &&& -1001 * span <= 1000 * (moved - line) <= 1001 * span
        &&& line >= 0 ==> 1000 * moved <= 1000 * line + span
        &&& line <= 0 ==> 1000 * moved >= 1000 * line - span
    }
}

/// A corrected time is what the anchors make of the original one.
proof fn lemma_corrected_follows(anchors: Seq<Anchor>, t: i64)
    requires
        in_order(anchors),
        anchors_in_range(anchors),
        -TIME_LIMIT_MS <= t <= TIME_LIMIT_MS,
    ensures
        follows_anchors(anchors, t as int, corrected(anchors, t) as int),
{
    lemma_anchors_in_range(anchors);
    let now = corrected(anchors, t) as int;
    assert(now == t + shift_at(anchors, t as int));
    if anchors.len() > 0 {
        law_shift_is_flat_outside(anchors, t as int);
    }
    assert forall|i: int|
        0 < i < anchors.len() && t < (
        #[trigger] anchors[i]).film_position_ms implies follows_neighbours(
        anchors[i - 1],
        anchors[i],
        t as int,
        now,
    ) by {
        let (prev, next) = (anchors[i - 1], anchors[i]);
        if prev.film_position_ms <= t < next.film_position_ms && -0x100_0000_0000 <= prev.delta_ms
            <= 0x100_0000_0000 && -0x100_0000_0000 <= next.delta_ms <= 0x100_0000_0000 {
            law_shift_is_linear_between_anchors(anchors, i, t as int);
        }
    }
}

} // verus!
