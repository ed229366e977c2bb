//! What holds of the engine over several calls and at all times.

use crate::anchor::{count_upto, Anchor};
use crate::conflict::{all_inserted, all_win, rival_ids};
use crate::engine::{
    corrected, is_stale, line_change, line_changes, recomputed, AlignmentEngine, ProcessedChunk,
    SubtitleState,
};
use crate::export::exportable;
use crate::ids::Id;
use crate::ingest::ids_of;
use crate::proto::LineChange;
use crate::stitch::{first_touching, lemma_without, touches, without, Stitching};
use vstd::prelude::*;

verus! {

// ---------------------------------------------------------------------------
// Corrected times
// ---------------------------------------------------------------------------

/// Without anchors no time is corrected.
pub proof fn law_no_anchors_no_corrections(t: i64)
    ensures
        corrected(Seq::empty(), t) == t,
{
}

/// Recomputing the corrected times once more changes nothing.
pub proof fn law_recomputing_twice_changes_nothing(
    before: Option<SubtitleState>,
    anchors: Seq<Anchor>,
    after: Option<SubtitleState>,
    changes: Seq<LineChange>,
    again: Option<SubtitleState>,
    more_changes: Seq<LineChange>,
)
    requires
        before matches Some(sub) ==> sub.wf(),
        recomputed(before, anchors, after, changes),
        recomputed(after, anchors, again, more_changes),
    ensures
        more_changes.len() == 0,
        after matches Some(sub) ==> again matches Some(same) && same.corrected_start_ms@
            == sub.corrected_start_ms@ && same.corrected_end_ms@ == sub.corrected_end_ms@,
{
    if let Some(sub) = before {
        let warped = after->0;
        lemma_no_stale_lines(warped, anchors, warped.original_timespans@.len() as int);
        assert(again->0.corrected_start_ms@ =~= warped.corrected_start_ms@);
        assert(again->0.corrected_end_ms@ =~= warped.corrected_end_ms@);
    }
}

/// Where every line has the times that the anchors say there are no changes.
proof fn lemma_no_stale_lines(sub: SubtitleState, anchors: Seq<Anchor>, n: int)
    requires
        n <= sub.original_timespans@.len(),
        forall|i: int|
            0 <= i < sub.original_timespans@.len() ==> #[trigger] sub.corrected_start_ms@[i]
                == corrected(anchors, sub.original_timespans@[i].0),
        forall|i: int|
            0 <= i < sub.original_timespans@.len() ==> #[trigger] sub.corrected_end_ms@[i]
                == corrected(anchors, sub.original_timespans@[i].1),
    ensures
        line_changes(sub, anchors, n).len() == 0,
    decreases n,
{
    if n > 0 {
        lemma_no_stale_lines(sub, anchors, n - 1);
    }
}

/// The changes tell of every line whose corrected times change and of no
/// other, in the order of the lines, each with its old and its new times.
pub proof fn law_changes_are_those_of_the_lines(sub: SubtitleState, anchors: Seq<Anchor>, n: int)
    requires
        sub.wf(),
        0 <= n <= sub.original_timespans@.len() <= i32::MAX,
    ensures
        ({
            let changes = line_changes(sub, anchors, n);
            &&& forall|k: int|
                0 <= k < changes.len() ==> 0 <= (#[trigger] changes[k]).line_index < n && is_stale(
                    sub,
                    anchors,
                    changes[k].line_index as int,
                ) && changes[k] == line_change(sub, anchors, changes[k].line_index as int)
            &&& forall|j: int, k: int|
                0 <= j < k < changes.len() ==> (#[trigger] changes[j]).line_index < (
                #[trigger] changes[k]).line_index
            &&& forall|i: int|
                0 <= i < n && #[trigger] is_stale(sub, anchors, i) ==> exists|k: int|
                    0 <= k < changes.len() && (#[trigger] changes[k]).line_index == i
        }),
    decreases n,
{
    if n > 0 {
        law_changes_are_those_of_the_lines(sub, anchors, n - 1);
        let earlier = line_changes(sub, anchors, n - 1);
        let changes = line_changes(sub, anchors, n);
        if is_stale(sub, anchors, n - 1) {
            assert(changes[earlier.len() as int] == line_change(sub, anchors, n - 1));
        }
        assert forall|k: int| 0 <= k < changes.len() implies 0 <= (
        #[trigger] changes[k]).line_index < n && is_stale(
            sub,
            anchors,
            changes[k].line_index as int,
        ) && changes[k] == line_change(sub, anchors, changes[k].line_index as int) by {
            if k < earlier.len() {
                assert(changes[k] == earlier[k]);
            }
        }
        assert forall|j: int, k: int| 0 <= j < k < changes.len() implies (
        #[trigger] changes[j]).line_index < (#[trigger] changes[k]).line_index by {
            assert(changes[j] == earlier[j]);
            if k < earlier.len() {
                assert(changes[k] == earlier[k]);
            }
        }
        assert forall|i: int| 0 <= i < n && #[trigger] is_stale(sub, anchors, i) implies exists|
            k: int,
        | 0 <= k < changes.len() && (#[trigger] changes[k]).line_index == i by {
            if i < n - 1 {
                let k = choose|k: int|
                    0 <= k < earlier.len() && (#[trigger] earlier[k]).line_index == i;
                assert(changes[k] == earlier[k]);
            }
        }
    }
}

// ---------------------------------------------------------------------------
// Stitching
// ---------------------------------------------------------------------------

/// Once all is stitched together, no chunk that is left touches the stretch.
pub proof fn law_stitched_audio_stands_alone(s: Stitching, sample_rate: i32, tolerance: int)
    ensures
        ({
            let joined = s.stitched(sample_rate, tolerance);
            forall|i: int|
                0 <= i < joined.chunks.len() ==> !touches(
                    #[trigger] joined.chunks[i],
                    joined.start as int,
                    joined.end as int,
                    sample_rate,
                    tolerance,
                )
        }),
    decreases s.chunks.len(),
{
    let i = s.next(sample_rate, tolerance);
    lemma_first_touching_bounds(s, sample_rate, tolerance, 0);
    if 0 <= i < s.chunks.len() {
        let t = s.swallow(i, sample_rate);
        law_stitched_audio_stands_alone(t, sample_rate, tolerance);
        assert(s.stitched(sample_rate, tolerance) == t.stitched(sample_rate, tolerance));
    } else {
        assert(s.stitched(sample_rate, tolerance) == s);
        assert(i == s.chunks.len());
        assert forall|j: int| 0 <= j < s.chunks.len() implies !touches(
            #[trigger] s.chunks[j],
            s.start as int,
            s.end as int,
            sample_rate,
            tolerance,
        ) by {}
    }
}

/// No chunk before the first that touches the stretch touches it, and that one
/// does.
proof fn lemma_first_touching_bounds(s: Stitching, sample_rate: i32, tolerance: int, i: int)
    requires
        0 <= i <= s.chunks.len(),
    ensures
        ({
            let k = first_touching(
                s.chunks,
                s.start as int,
                s.end as int,
                sample_rate,
                tolerance,
                i,
            );
            &&& i <= k <= s.chunks.len()
            &&& forall|j: int|
                i <= j < k ==> !touches(
                    #[trigger] s.chunks[j],
                    s.start as int,
                    s.end as int,
                    sample_rate,
                    tolerance,
                )
            &&& k < s.chunks.len() ==> touches(
                s.chunks[k],
                s.start as int,
                s.end as int,
                sample_rate,
                tolerance,
            )
        }),
    decreases s.chunks.len() - i,
{
    if i < s.chunks.len() && !touches(
        s.chunks[i],
        s.start as int,
        s.end as int,
        sample_rate,
        tolerance,
    ) {
        lemma_first_touching_bounds(s, sample_rate, tolerance, i + 1);
    }
}

/// Stitching takes no chunk of another sample rate, and brings in none that
/// was not there.
pub proof fn law_stitching_spares_other_rates(
    s: Stitching,
    sample_rate: i32,
    tolerance: int,
    c: ProcessedChunk,
)
    ensures
        s.stitched(sample_rate, tolerance).chunks.contains(c) ==> s.chunks.contains(c),
        s.chunks.contains(c) && c.sample_rate != sample_rate ==> s.stitched(
            sample_rate,
            tolerance,
        ).chunks.contains(c),
    decreases s.chunks.len(),
{
    let i = s.next(sample_rate, tolerance);
    lemma_first_touching_bounds(s, sample_rate, tolerance, 0);
    if 0 <= i < s.chunks.len() {
        let t = s.swallow(i, sample_rate);
        law_stitching_spares_other_rates(t, sample_rate, tolerance, c);
        lemma_remove_contains(s.chunks, i, c);
    }
}

/// What is left of a list when one of its items is taken out.
proof fn lemma_remove_contains(chunks: Seq<ProcessedChunk>, i: int, c: ProcessedChunk)
    requires
        0 <= i < chunks.len(),
    ensures
        chunks.remove(i).contains(c) ==> chunks.contains(c),
        chunks.contains(c) ==> chunks.remove(i).contains(c) || chunks[i] == c,
{
    let rest = chunks.remove(i);
    if rest.contains(c) {
        let k = choose|k: int| 0 <= k < rest.len() && rest[k] == c;
        assert(chunks[if k < i {
            k
        } else {
            k + 1
        }] == c);
    }
    if chunks.contains(c) {
        let k = choose|k: int| 0 <= k < chunks.len() && chunks[k] == c;
        if k < i {
            assert(rest[k] == c);
        } else if k > i {
            assert(rest[k - 1] == c);
        }
    }
}

/// The anchors of a chunk go with it: none of them is left unless the chunk
/// is. The other anchors stay.
pub proof fn law_anchors_go_with_their_chunks(
    s: Stitching,
    sample_rate: i32,
    tolerance: int,
    a: Anchor,
)
    ensures
        ({
            let joined = s.stitched(sample_rate, tolerance);
            &&& joined.anchors.contains(a) ==> s.anchors.contains(a)
            &&& joined.anchors.contains(a) ==> forall|c: ProcessedChunk| #[trigger]
                s.chunks.contains(c) && c.anchor_ids@.contains(a.id) ==> joined.chunks.contains(c)
            &&& s.anchors.contains(a) && (forall|c: ProcessedChunk| #[trigger]
                s.chunks.contains(c) ==> !c.anchor_ids@.contains(a.id)) ==> joined.anchors.contains(
                a,
            )
        }),
    decreases s.chunks.len(),
{
    let i = s.next(sample_rate, tolerance);
    lemma_first_touching_bounds(s, sample_rate, tolerance, 0);
    if 0 <= i < s.chunks.len() {
        let c = s.chunks[i];
        let t = s.swallow(i, sample_rate);
        law_anchors_go_with_their_chunks(t, sample_rate, tolerance, a);
        lemma_without_contains(s.anchors, c.anchor_ids@.to_set(), a);
        assert forall|d: ProcessedChunk| #[trigger] t.chunks.contains(d) implies s.chunks.contains(
            d,
        ) by {
            lemma_remove_contains(s.chunks, i, d);
        }
        let joined = s.stitched(sample_rate, tolerance);
        assert(joined == t.stitched(sample_rate, tolerance));
        assert(s.chunks.contains(c));
        assert(c.anchor_ids@.to_set().contains(a.id) <==> c.anchor_ids@.contains(a.id));
        if joined.anchors.contains(a) {
            assert forall|d: ProcessedChunk| #[trigger]
                s.chunks.contains(d) && d.anchor_ids@.contains(a.id) implies joined.chunks.contains(
                d,
            ) by {
                lemma_remove_contains(s.chunks, i, d);
            }
        }
    } else {
        assert(s.stitched(sample_rate, tolerance) == s);
    }
}

/// What is left when anchors are taken away.
pub(crate) proof fn lemma_without_contains(anchors: Seq<Anchor>, ids: Set<Id>, a: Anchor)
    ensures
        without(anchors, ids).contains(a) <==> anchors.contains(a) && !ids.contains(a.id),
    decreases anchors.len(),
{
    lemma_without(anchors, ids);
    let kept = without(anchors, ids);
    if kept.contains(a) {
        let k = choose|k: int| 0 <= k < kept.len() && kept[k] == a;
        assert(anchors.contains(kept[k]));
    }
    if anchors.len() > 0 && anchors.contains(a) && !ids.contains(a.id) {
        let rest = anchors.drop_last();
        lemma_without_contains(rest, ids, a);
        let k = choose|k: int| 0 <= k < anchors.len() && anchors[k] == a;
        if k < rest.len() {
            assert(rest[k] == a);
            let j = choose|j: int|
                0 <= j < without(rest, ids).len() && without(rest, ids)[j] == a;
            assert(kept[j] == a);
        } else {
            assert(kept[kept.len() - 1] == a);
        }
    }
}

/// If stitching takes no anchors away, they stay as they were.
pub proof fn law_no_eviction_no_loss(s: Stitching, sample_rate: i32, tolerance: int)
    requires
        !s.evicted,
    ensures
        !s.stitched(sample_rate, tolerance).evicted ==> s.stitched(sample_rate, tolerance).anchors
            == s.anchors,
    decreases s.chunks.len(),
{
    let i = s.next(sample_rate, tolerance);
    if 0 <= i < s.chunks.len() {
        let t = s.swallow(i, sample_rate);
        if t.evicted {
            lemma_eviction_stays(t, sample_rate, tolerance);
        } else {
            law_no_eviction_no_loss(t, sample_rate, tolerance);
            lemma_without_none(s.anchors, s.chunks[i].anchor_ids@.to_set());
        }
    }
}

/// Once anchors have gone, this is not forgotten.
proof fn lemma_eviction_stays(s: Stitching, sample_rate: i32, tolerance: int)
    requires
        s.evicted,
    ensures
        s.stitched(sample_rate, tolerance).evicted,
    decreases s.chunks.len(),
{
    let i = s.next(sample_rate, tolerance);
    if 0 <= i < s.chunks.len() {
        lemma_eviction_stays(s.swallow(i, sample_rate), sample_rate, tolerance);
    }
}

/// Taking away nothing leaves everything.
proof fn lemma_without_none(anchors: Seq<Anchor>, ids: Set<Id>)
    requires
        forall|id: Id| !ids.contains(id),
    ensures
        without(anchors, ids) == anchors,
    decreases anchors.len(),
{
    if anchors.len() > 0 {
        lemma_without_none(anchors.drop_last(), ids);
    }
    assert(without(anchors, ids) =~= anchors);
}

// ---------------------------------------------------------------------------
// Anchors
// ---------------------------------------------------------------------------

/// Inserting anchors loses none and adds no others.
pub proof fn law_insertion_keeps_all(anchors: Seq<Anchor>, added: Seq<Anchor>)
    ensures
        all_inserted(anchors, added).to_multiset() == anchors.to_multiset().add(
            added.to_multiset(),
        ),
    decreases added.len(),
{
    broadcast use vstd::seq_lib::group_to_multiset_ensures;

    if added.len() == 0 {
        assert(added =~= Seq::<Anchor>::empty());
        assert(all_inserted(anchors, added).to_multiset() =~= anchors.to_multiset().add(
            added.to_multiset(),
        ));
    } else {
        let earlier = all_inserted(anchors, added.drop_last());
        let a = added.last();
        law_insertion_keeps_all(anchors, added.drop_last());
        lemma_place(earlier, a.film_position_ms - 1);
        vstd::seq_lib::to_multiset_insert(
            earlier,
            count_upto(earlier, a.film_position_ms - 1),
            a,
        );
        assert(added =~= added.drop_last().push(a));
        assert(all_inserted(anchors, added).to_multiset() =~= anchors.to_multiset().add(
            added.to_multiset(),
        ));
    }
}

/// The number of anchors up to a place is no more than there are.
proof fn lemma_place(anchors: Seq<Anchor>, t: int)
    ensures
        0 <= count_upto(anchors, t) <= anchors.len(),
    decreases anchors.len(),
{
    if anchors.len() > 0 {
        lemma_place(anchors.drop_last(), t);
    }
}

/// An anchor is in the list after an insertion exactly if it was there before
/// or is one of the new ones.
pub(crate) proof fn lemma_inserted_contains(anchors: Seq<Anchor>, added: Seq<Anchor>, a: Anchor)
    ensures
        all_inserted(anchors, added).contains(a) <==> anchors.contains(a) || added.contains(a),
{
    broadcast use vstd::seq_lib::group_to_multiset_ensures;

    law_insertion_keeps_all(anchors, added);
    let all = all_inserted(anchors, added);
    assert(all.to_multiset().count(a) == anchors.to_multiset().count(a)
        + added.to_multiset().count(a));
}

/// New anchors come in all or none. If all are surer than their rivals, all of
/// them are in place afterwards, every rival is gone, and every other anchor
/// is still there. Otherwise no anchor comes or goes.
pub proof fn law_new_anchors_come_all_or_none(
    before: AlignmentEngine,
    added: Seq<Anchor>,
    chunk_id: Id,
    start: i64,
    end: i64,
    sample_rate: i32,
    evicted: bool,
    after: AlignmentEngine,
    changes: Seq<LineChange>,
    a: Anchor,
)
    requires
        before.takes_anchors(
            added,
            chunk_id,
            start,
            end,
            sample_rate,
            evicted,
            &after,
            changes,
        ),
    ensures
        ({
            let spacing = before.config.min_anchor_spacing_ms as int;
            if all_win(before.anchors@, added, spacing) {
                after.anchors@.contains(a) <==> added.contains(a) || before.anchors@.contains(a)
                    && !rival_ids(before.anchors@, added, spacing).contains(a.id)
            } else {
                after.anchors@ == before.anchors@
            }
        }),
{
    let spacing = before.config.min_anchor_spacing_ms as int;
    let ids = rival_ids(before.anchors@, added, spacing);
    if added.len() == 0 {
        assert(!ids.contains(a.id));
    } else if all_win(before.anchors@, added, spacing) {
        lemma_without_contains(before.anchors@, ids, a);
        lemma_inserted_contains(without(before.anchors@, ids), added, a);
    }
}

// ---------------------------------------------------------------------------
// Chunks
// ---------------------------------------------------------------------------

/// Whether no two chunks of the same sample rate touch.
pub open spec fn chunks_apart(chunks: Seq<ProcessedChunk>, tolerance: int) -> bool {
    forall|i: int, j: int|
        0 <= i < chunks.len() && 0 <= j < chunks.len() && i != j ==> !touches(
            #[trigger] chunks[i],
            (#[trigger] chunks[j]).film_start_ms as int,
            chunks[j].film_end_ms as int,
            chunks[j].sample_rate,
            tolerance,
        )
}

/// Whether every anchor belongs to a chunk.
pub open spec fn accounted_for(anchors: Seq<Anchor>, chunks: Seq<ProcessedChunk>) -> bool {
    forall|k: int|
        0 <= k < anchors.len() ==> has_anchor(chunks, (#[trigger] anchors[k]).id)
}

/// Whether some chunk has the anchor with this identifier.
pub open spec fn has_anchor(chunks: Seq<ProcessedChunk>, id: Id) -> bool {
    exists|i: int| 0 <= i < chunks.len() && (#[trigger] chunks[i]).anchor_ids@.contains(id)
}

/// Stitching keeps chunks apart.
proof fn lemma_stitching_keeps_apart(s: Stitching, sample_rate: i32, tolerance: int)
    requires
        chunks_apart(s.chunks, tolerance),
    ensures
        chunks_apart(s.stitched(sample_rate, tolerance).chunks, tolerance),
    decreases s.chunks.len(),
{
    let i = s.next(sample_rate, tolerance);
    if 0 <= i < s.chunks.len() {
        let t = s.swallow(i, sample_rate);
        assert forall|j: int, k: int|
            0 <= j < t.chunks.len() && 0 <= k < t.chunks.len() && j != k implies !touches(
            #[trigger] t.chunks[j],
            (#[trigger] t.chunks[k]).film_start_ms as int,
            t.chunks[k].film_end_ms as int,
            t.chunks[k].sample_rate,
            tolerance,
        ) by {
            let jj = if j < i {
                j
            } else {
                j + 1
            };
            let kk = if k < i {
                k
            } else {
                k + 1
            };
            assert(t.chunks[j] == s.chunks[jj] && t.chunks[k] == s.chunks[kk]);
        }
        lemma_stitching_keeps_apart(t, sample_rate, tolerance);
    }
}

/// Stitching keeps anchors accounted for.
proof fn lemma_stitching_keeps_account(s: Stitching, sample_rate: i32, tolerance: int)
    requires
        accounted_for(s.anchors, s.chunks),
    ensures
        accounted_for(
            s.stitched(sample_rate, tolerance).anchors,
            s.stitched(sample_rate, tolerance).chunks,
        ),
    decreases s.chunks.len(),
{
    let i = s.next(sample_rate, tolerance);
    if 0 <= i < s.chunks.len() {
        let c = s.chunks[i];
        let ids = c.anchor_ids@.to_set();
        let t = s.swallow(i, sample_rate);
        assert forall|k: int| 0 <= k < t.anchors.len() implies has_anchor(
            t.chunks,
            (#[trigger] t.anchors[k]).id,
        ) by {
            let a = t.anchors[k];
            lemma_without_contains(s.anchors, ids, a);
            assert(t.anchors.contains(a));
            let m = choose|m: int| 0 <= m < s.anchors.len() && s.anchors[m] == a;
            assert(has_anchor(s.chunks, s.anchors[m].id));
            let j = choose|j: int|
                0 <= j < s.chunks.len() && (#[trigger] s.chunks[j]).anchor_ids@.contains(a.id);
            assert(!ids.contains(a.id));
            assert(j != i);
            let jj = if j < i {
                j
            } else {
                j - 1
            };
            assert(t.chunks[jj] == s.chunks[j]);
        }
        lemma_stitching_keeps_account(t, sample_rate, tolerance);
    }
}

/// Whether `after` has the chunks of `before`, with at most one more at the
/// end: one for the given stretch, with all anchors that are new.
spec fn grows_by_one(
    before: AlignmentEngine,
    start: i64,
    end: i64,
    sample_rate: i32,
    after: AlignmentEngine,
) -> bool {
    ||| after.chunks@ == before.chunks@ && after.anchors@ == before.anchors@
    ||| {
        let c = after.chunks@.last();
        &&& after.chunks@.len() == before.chunks@.len() + 1
        &&& after.chunks@.drop_last() == before.chunks@
        &&& c.film_start_ms == start
        &&& c.film_end_ms == end
        &&& c.sample_rate == sample_rate
        &&& forall|k: int|
            0 <= k < after.anchors@.len() ==> before.anchors@.contains(
                #[trigger] after.anchors@[k],
            ) || c.anchor_ids@.contains(after.anchors@[k].id)
    }
}

/// What hearing audio does to chunks and anchors.
proof fn lemma_heard(
    before: AlignmentEngine,
    pcm: Seq<u8>,
    start: i64,
    end: i64,
    sample_rate: i32,
    evicted: bool,
    after: AlignmentEngine,
    changes: Seq<LineChange>,
)
    requires
        before.hears(pcm, start, end, sample_rate, evicted, &after, changes),
    ensures
        grows_by_one(before, start, end, sample_rate, after),
        after.config == before.config,
{
    if !(after.chunks@ == before.chunks@ && after.anchors@ == before.anchors@) {
        let (added, chunk_id) = choose|added: Seq<Anchor>, chunk_id: Id|
            before.takes_anchors(
                added,
                chunk_id,
                start,
                end,
                sample_rate,
                evicted,
                &after,
                changes,
            );
        let spacing = before.config.min_anchor_spacing_ms as int;
        let ids = rival_ids(before.anchors@, added, spacing);
        let c = after.chunks@.last();
        assert forall|k: int| 0 <= k < after.anchors@.len() implies before.anchors@.contains(
            #[trigger] after.anchors@[k],
        ) || c.anchor_ids@.contains(after.anchors@[k].id) by {
            let a = after.anchors@[k];
            assert(after.anchors@.contains(a));
            lemma_without_contains(before.anchors@, ids, a);
            lemma_inserted_contains(without(before.anchors@, ids), added, a);
            if added.contains(a) {
                let j = choose|j: int| 0 <= j < added.len() && added[j] == a;
                assert(ids_of(added)[j] == a.id);
            }
        }
    }
}

/// No two chunks of the same sample rate ever come to touch: what touches is
/// stitched together.
pub proof fn law_chunks_stay_apart(
    before: AlignmentEngine,
    pcm: Seq<u8>,
    sample_rate: i32,
    start: i64,
    end: i64,
    after: AlignmentEngine,
    r: Result<Vec<LineChange>, String>,
)
    requires
        before.ingests(pcm, sample_rate, start, end, &after, r),
        chunks_apart(before.chunks@, before.config.stitch_tolerance_ms as int),
    ensures
        chunks_apart(after.chunks@, after.config.stitch_tolerance_ms as int),
{
    if r is Ok {
        let tolerance = before.config.stitch_tolerance_ms as int;
        let s = before.stitching(pcm, start, end);
        let joined = s.stitched(sample_rate, tolerance);
        let stitched = choose|stitched: AlignmentEngine| #[trigger]
            before.is_stitched(pcm, sample_rate, start, end, &stitched) && stitched.hears(
                joined.pcm,
                joined.start,
                joined.end,
                sample_rate,
                joined.evicted,
                &after,
                r->Ok_0@,
            );
        lemma_stitching_keeps_apart(s, sample_rate, tolerance);
        law_stitched_audio_stands_alone(s, sample_rate, tolerance);
        lemma_heard(
            stitched,
            joined.pcm,
            joined.start,
            joined.end,
            sample_rate,
            joined.evicted,
            after,
            r->Ok_0@,
        );
        if after.chunks@ != joined.chunks {
            let n = joined.chunks.len() as int;
            assert forall|i: int, j: int|
                0 <= i < after.chunks@.len() && 0 <= j < after.chunks@.len() && i
                    != j implies !touches(
                #[trigger] after.chunks@[i],
                (#[trigger] after.chunks@[j]).film_start_ms as int,
                after.chunks@[j].film_end_ms as int,
                after.chunks@[j].sample_rate,
                tolerance,
            ) by {
                if i < n {
                    assert(after.chunks@.drop_last()[i] == joined.chunks[i]);
                }
                if j < n {
                    assert(after.chunks@.drop_last()[j] == joined.chunks[j]);
                }
            }
        }
    }
}

/// Every anchor belongs to a chunk that the engine remembers.
pub proof fn law_anchors_stay_accounted_for(
    before: AlignmentEngine,
    pcm: Seq<u8>,
    sample_rate: i32,
    start: i64,
    end: i64,
    after: AlignmentEngine,
    r: Result<Vec<LineChange>, String>,
)
    requires
        before.ingests(pcm, sample_rate, start, end, &after, r),
        accounted_for(before.anchors@, before.chunks@),
    ensures
        accounted_for(after.anchors@, after.chunks@),
{
    if r is Ok {
        let tolerance = before.config.stitch_tolerance_ms as int;
        let s = before.stitching(pcm, start, end);
        let joined = s.stitched(sample_rate, tolerance);
        let stitched = choose|stitched: AlignmentEngine| #[trigger]
            before.is_stitched(pcm, sample_rate, start, end, &stitched) && stitched.hears(
                joined.pcm,
                joined.start,
                joined.end,
                sample_rate,
                joined.evicted,
                &after,
                r->Ok_0@,
            );
        lemma_stitching_keeps_account(s, sample_rate, tolerance);
        lemma_heard(
            stitched,
            joined.pcm,
            joined.start,
            joined.end,
            sample_rate,
            joined.evicted,
            after,
            r->Ok_0@,
        );
        if !(after.chunks@ == joined.chunks && after.anchors@ == joined.anchors) {
            let n = joined.chunks.len() as int;
            assert forall|k: int| 0 <= k < after.anchors@.len() implies has_anchor(
                after.chunks@,
                (#[trigger] after.anchors@[k]).id,
            ) by {
                let a = after.anchors@[k];
                if joined.anchors.contains(a) {
                    let m = choose|m: int| 0 <= m < joined.anchors.len() && joined.anchors[m] == a;
                    assert(has_anchor(joined.chunks, joined.anchors[m].id));
                    let j = choose|j: int|
                        0 <= j < n && (#[trigger] joined.chunks[j]).anchor_ids@.contains(a.id);
                    assert(after.chunks@.drop_last()[j] == joined.chunks[j]);
                    assert(after.chunks@[j].anchor_ids@.contains(a.id));
                } else {
                    assert(after.chunks@[n].anchor_ids@.contains(a.id));
                }
            }
        }
    }
}

// ---------------------------------------------------------------------------
// Export
// ---------------------------------------------------------------------------

/// A subtitle that was loaded can always be written, in its own format and as
/// SubRip: its content stays what it was, whatever happens to its times.
pub proof fn law_loaded_subtitle_can_be_written(sub: SubtitleState, later: SubtitleState)
    requires
        sub.is_of_its_content(),
        later.same_source(&sub),
        later.in_range(),
    ensures
        exportable(later, later.format_str@),
        exportable(later, "srt"@),
{
    assert forall|i: int| 0 <= i < later.corrected_start_ms@.len() implies (
    #[trigger] later.corrected_start_ms@[i]) > i64::MIN by {}
}

} // verus!
