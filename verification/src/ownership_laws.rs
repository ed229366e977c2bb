//! Who owns an anchor: just one chunk does.

use crate::anchor::{count_upto, in_order, Anchor};
use crate::conflict::{all_inserted, inserted, rival_ids};
use crate::engine::{AlignmentEngine, ProcessedChunk};
use crate::engine_laws::{lemma_inserted_contains, lemma_without_contains};
use crate::ids::Id;
use crate::ingest::ids_of;
use crate::proto::LineChange;
use crate::stitch::{lemma_without, without, Stitching};
use vstd::prelude::*;

verus! {

/// Whether no two anchors have the same identifier.
pub open spec fn anchors_distinct(anchors: Seq<Anchor>) -> bool {
    forall|i: int, j: int|
        0 <= i < j < anchors.len() ==> (#[trigger] anchors[i]).id != (#[trigger] anchors[j]).id
}

/// Whether no two chunks have the same identifier, or an anchor in common.
pub open spec fn chunks_distinct(chunks: Seq<ProcessedChunk>) -> bool {
    forall|i: int, j: int|
        0 <= i < j < chunks.len() ==> (#[trigger] chunks[i]).id != (#[trigger] chunks[j]).id
            && none_shared(chunks[i].anchor_ids@, chunks[j].anchor_ids@)
}

/// Whether two lists have no identifier in common.
pub open spec fn none_shared(a: Seq<Id>, b: Seq<Id>) -> bool {
    forall|id: Id| !(#[trigger] a.contains(id) && #[trigger] b.contains(id))
}

/// Whether a chunk is the one that an anchor belongs to, and knows of it.
pub open spec fn owns(c: ProcessedChunk, a: Anchor) -> bool {
    c.id == a.chunk_id && c.anchor_ids@.contains(a.id)
}

/// Whether some chunk owns the anchor.
pub open spec fn is_owned(chunks: Seq<ProcessedChunk>, a: Anchor) -> bool {
    exists|i: int| 0 <= i < chunks.len() && owns(#[trigger] chunks[i], a)
}

/// Whether the anchors are in order, no two alike, and each is owned by a
/// chunk, the only one that has its identifier or knows of the anchor.
pub open spec fn well_owned(anchors: Seq<Anchor>, chunks: Seq<ProcessedChunk>) -> bool {
    &&& in_order(anchors)
    &&& anchors_distinct(anchors)
    &&& chunks_distinct(chunks)
    &&& forall|k: int| 0 <= k < anchors.len() ==> is_owned(chunks, #[trigger] anchors[k])
}

/// Whether the identifiers of a chunk and its anchors are new to the engine,
/// and no two of the anchors have the same one.
pub open spec fn is_new(engine: AlignmentEngine, c: ProcessedChunk) -> bool {
    &&& c.anchor_ids@.no_duplicates()
    &&& forall|i: int|
        0 <= i < engine.chunks@.len() ==> (#[trigger] engine.chunks@[i]).id != c.id && none_shared(
            engine.chunks@[i].anchor_ids@,
            c.anchor_ids@,
        )
    &&& forall|k: int|
        0 <= k < engine.anchors@.len() ==> !c.anchor_ids@.contains(
            (#[trigger] engine.anchors@[k]).id,
        )
}

/// Of all chunks, just one owns a given anchor, and no other knows of it.
pub proof fn law_one_chunk_owns_an_anchor(
    anchors: Seq<Anchor>,
    chunks: Seq<ProcessedChunk>,
    k: int,
)
    requires
        well_owned(anchors, chunks),
        0 <= k < anchors.len(),
    ensures
        exists|i: int|
            {
                &&& 0 <= i < chunks.len()
                &&& owns(#[trigger] chunks[i], anchors[k])
                &&& forall|j: int|
                    0 <= j < chunks.len() && j != i ==> (#[trigger] chunks[j]).id
                        != anchors[k].chunk_id && !chunks[j].anchor_ids@.contains(anchors[k].id)
            },
{
    let a = anchors[k];
    assert(is_owned(chunks, a));
    let i = choose|i: int| 0 <= i < chunks.len() && owns(#[trigger] chunks[i], a);
    assert forall|j: int| 0 <= j < chunks.len() && j != i implies (#[trigger] chunks[j]).id
        != a.chunk_id && !chunks[j].anchor_ids@.contains(a.id) by {
        let (p, q) = if i < j {
            (i, j)
        } else {
            (j, i)
        };
        assert(chunks[p].id != chunks[q].id);
        assert(none_shared(chunks[p].anchor_ids@, chunks[q].anchor_ids@));
        assert(chunks[i].anchor_ids@.contains(a.id));
    }
}

/// Anchors that are left when some are taken away are still no two alike.
proof fn lemma_without_distinct(anchors: Seq<Anchor>, ids: Set<Id>)
    requires
        anchors_distinct(anchors),
    ensures
        anchors_distinct(without(anchors, ids)),
    decreases anchors.len(),
{
    if anchors.len() > 0 {
        let rest = anchors.drop_last();
        let fewer = without(rest, ids);
        lemma_without_distinct(rest, ids);
        let all = without(anchors, ids);
        assert forall|i: int, j: int| 0 <= i < j < all.len() implies (#[trigger] all[i]).id != (
        #[trigger] all[j]).id by {
            if j < fewer.len() {
                assert(all[i] == fewer[i] && all[j] == fewer[j]);
            } else {
                lemma_without(rest, ids);
                assert(all[i] == fewer[i]);
                assert(rest.contains(fewer[i]));
                let m = choose|m: int| 0 <= m < rest.len() && rest[m] == fewer[i];
                assert(anchors[m] == all[i]);
            }
        }
    }
}

/// In a list in order, the anchors at or before `t` are the first ones.
proof fn lemma_first_ones(anchors: Seq<Anchor>, t: int)
    requires
        in_order(anchors),
    ensures
        0 <= count_upto(anchors, t) <= anchors.len(),
        forall|i: int|
            0 <= i < count_upto(anchors, t) ==> (#[trigger] anchors[i]).film_position_ms <= t,
        forall|i: int|
            count_upto(anchors, t) <= i < anchors.len() ==> (#[trigger] anchors[i]).film_position_ms
                > t,
    decreases anchors.len(),
{
    if anchors.len() > 0 {
        let rest = anchors.drop_last();
        let last = anchors[anchors.len() - 1];
        lemma_first_ones(rest, t);
        assert forall|i: int| 0 <= i < rest.len() implies (#[trigger] rest[i]).film_position_ms
            <= last.film_position_ms by {
            assert(rest[i] == anchors[i]);
        }
        let k = count_upto(rest, t);
        if last.film_position_ms <= t && k < rest.len() {
            assert(rest[k].film_position_ms > t);
        }
        assert forall|i: int| 0 <= i < anchors.len() implies (i < count_upto(anchors, t) <==> (
        #[trigger] anchors[i]).film_position_ms <= t) by {
            if i < rest.len() {
                assert(rest[i] == anchors[i]);
            }
        }
    }
}

/// New anchors that are unlike all others, put where they belong.
proof fn lemma_inserted_distinct(anchors: Seq<Anchor>, added: Seq<Anchor>)
    requires
        in_order(anchors),
        anchors_distinct(anchors),
        anchors_distinct(added),
        forall|i: int, j: int|
            0 <= i < anchors.len() && 0 <= j < added.len() ==> (#[trigger] anchors[i]).id != (
            #[trigger] added[j]).id,
    ensures
        in_order(all_inserted(anchors, added)),
        anchors_distinct(all_inserted(anchors, added)),
    decreases added.len(),
{
    if added.len() > 0 {
        let earlier = added.drop_last();
        let list = all_inserted(anchors, earlier);
        let a = added.last();
        assert forall|i: int, j: int|
            0 <= i < anchors.len() && 0 <= j < earlier.len() implies (#[trigger] anchors[i]).id != (
        #[trigger] earlier[j]).id by {
            assert(earlier[j] == added[j]);
        }
        lemma_inserted_distinct(anchors, earlier);
        lemma_first_ones(list, a.film_position_ms - 1);
        let all = inserted(list, a);
        assert forall|i: int| 0 <= i < list.len() implies (#[trigger] list[i]).id != a.id by {
            let b = list[i];
            assert(list.contains(b));
            lemma_inserted_contains(anchors, earlier, b);
            if anchors.contains(b) {
                let m = choose|m: int| 0 <= m < anchors.len() && anchors[m] == b;
                assert(anchors[m].id != added[added.len() - 1].id);
            } else {
                let m = choose|m: int| 0 <= m < earlier.len() && earlier[m] == b;
                assert(added[m].id != added[added.len() - 1].id);
            }
        }
    }
}

/// Stitching leaves anchors with their owners, and brings in no chunk or anchor.
proof fn lemma_stitching_keeps_owners(s: Stitching, sample_rate: i32, tolerance: int)
    requires
        well_owned(s.anchors, s.chunks),
    ensures
        ({
            let t = s.stitched(sample_rate, tolerance);
            &&& well_owned(t.anchors, t.chunks)
            &&& t.chunks.len() <= s.chunks.len()
            &&& forall|i: int| 0 <= i < t.chunks.len() ==> s.chunks.contains(#[trigger] t.chunks[i])
            &&& forall|i: int|
                0 <= i < t.anchors.len() ==> s.anchors.contains(#[trigger] t.anchors[i])
        }),
    decreases s.chunks.len(),
{
    let i = s.next(sample_rate, tolerance);
    if 0 <= i < s.chunks.len() {
        let c = s.chunks[i];
        let ids = c.anchor_ids@.to_set();
        let t = s.swallow(i, sample_rate);
        let end = t.stitched(sample_rate, tolerance);
        lemma_without(s.anchors, ids);
        lemma_without_distinct(s.anchors, ids);
        assert forall|j: int, k: int| 0 <= j < k < t.chunks.len() implies (
        #[trigger] t.chunks[j]).id != (#[trigger] t.chunks[k]).id && none_shared(
            t.chunks[j].anchor_ids@,
            t.chunks[k].anchor_ids@,
        ) by {
            let jj = if j < i {
                j
            } else {
                j + 1
            };
            let kk = if k < i {
                k
            } else {
                k + 1
            };
            assert(t.chunks[j] == s.chunks[jj] && t.chunks[k] == s.chunks[kk]);
        }
        assert forall|k: int| 0 <= k < t.anchors.len() implies is_owned(
            t.chunks,
            #[trigger] t.anchors[k],
        ) by {
            let a = t.anchors[k];
            assert(s.anchors.contains(a));
            let m = choose|m: int| 0 <= m < s.anchors.len() && s.anchors[m] == a;
            assert(is_owned(s.chunks, s.anchors[m]));
            let j = choose|j: int| 0 <= j < s.chunks.len() && owns(#[trigger] s.chunks[j], a);
            assert(!ids.contains(a.id));
            assert(j != i);
            let jj = if j < i {
                j
            } else {
                j - 1
            };
            assert(t.chunks[jj] == s.chunks[j]);
        }
        lemma_stitching_keeps_owners(t, sample_rate, tolerance);
        assert forall|k: int| 0 <= k < end.chunks.len() implies s.chunks.contains(
            #[trigger] end.chunks[k],
        ) by {
            assert(t.chunks.contains(end.chunks[k]));
            let m = choose|m: int| 0 <= m < t.chunks.len() && t.chunks[m] == end.chunks[k];
            assert(s.chunks[if m < i {
                m
            } else {
                m + 1
            }] == end.chunks[k]);
        }
        assert forall|k: int| 0 <= k < end.anchors.len() implies s.anchors.contains(
            #[trigger] end.anchors[k],
        ) by {
            assert(t.anchors.contains(end.anchors[k]));
            let m = choose|m: int| 0 <= m < t.anchors.len() && t.anchors[m] == end.anchors[k];
            assert(s.anchors.contains(t.anchors[m]));
        }
    } else {
        assert forall|k: int| 0 <= k < s.anchors.len() implies s.anchors.contains(
            #[trigger] s.anchors[k],
        ) by {}
    }
}

/// New anchors that take their place together with their chunk.
proof fn lemma_taken_are_owned(
    before: AlignmentEngine,
    added: Seq<Anchor>,
    spacing: int,
    c: ProcessedChunk,
    after: AlignmentEngine,
)
    requires
        well_owned(before.anchors@, before.chunks@),
        is_new(before, c),
        c.anchor_ids@ == ids_of(added),
        forall|g: int| 0 <= g < added.len() ==> (#[trigger] added[g]).chunk_id == c.id,
        after.chunks@ == before.chunks@.push(c),
        after.anchors@ == all_inserted(
            without(before.anchors@, rival_ids(before.anchors@, added, spacing)),
            added,
        ),
    ensures
        well_owned(after.anchors@, after.chunks@),
{
    let ids = rival_ids(before.anchors@, added, spacing);
    let left = without(before.anchors@, ids);
    let n = before.chunks@.len() as int;
    lemma_without(before.anchors@, ids);
    lemma_without_distinct(before.anchors@, ids);
    assert forall|i: int, j: int| 0 <= i < j < added.len() implies (#[trigger] added[i]).id != (
    #[trigger] added[j]).id by {
        assert(c.anchor_ids@[i] == added[i].id && c.anchor_ids@[j] == added[j].id);
    }
    assert forall|i: int, j: int| 0 <= i < left.len() && 0 <= j < added.len() implies (
    #[trigger] left[i]).id != (#[trigger] added[j]).id by {
        assert(before.anchors@.contains(left[i]));
        let m = choose|m: int|
            0 <= m < before.anchors@.len() && before.anchors@[m] == left[i];
        assert(!c.anchor_ids@.contains(before.anchors@[m].id));
        assert(c.anchor_ids@[j] == added[j].id);
    }
    lemma_inserted_distinct(left, added);
    assert forall|i: int, j: int| 0 <= i < j < after.chunks@.len() implies (
    #[trigger] after.chunks@[i]).id != (#[trigger] after.chunks@[j]).id && none_shared(
        after.chunks@[i].anchor_ids@,
        after.chunks@[j].anchor_ids@,
    ) by {
        assert(after.chunks@[i] == before.chunks@[i]);
        if j < n {
            assert(after.chunks@[j] == before.chunks@[j]);
        }
    }
    assert forall|k: int| 0 <= k < after.anchors@.len() implies is_owned(
        after.chunks@,
        #[trigger] after.anchors@[k],
    ) by {
        let a = after.anchors@[k];
        assert(after.anchors@.contains(a));
        lemma_without_contains(before.anchors@, ids, a);
        lemma_inserted_contains(left, added, a);
        if added.contains(a) {
            let g = choose|g: int| 0 <= g < added.len() && added[g] == a;
            assert(ids_of(added)[g] == a.id);
            assert(owns(after.chunks@[n], a));
        } else {
            let m = choose|m: int| 0 <= m < before.anchors@.len() && before.anchors@[m] == a;
            assert(is_owned(before.chunks@, before.anchors@[m]));
            let j = choose|j: int| 0 <= j < n && owns(#[trigger] before.chunks@[j], a);
            assert(after.chunks@[j] == before.chunks@[j]);
        }
    }
}

/// Hearing audio leaves anchors with their owners.
proof fn lemma_hearing_keeps_owners(
    before: AlignmentEngine,
    pcm: Seq<u8>,
    start: i64,
    end: i64,
    sample_rate: i32,
    evicted: bool,
    after: AlignmentEngine,
    changes: Seq<LineChange>,
)
    requires
        before.hears(pcm, start, end, sample_rate, evicted, &after, changes),
        well_owned(before.anchors@, before.chunks@),
        after.chunks@.len() > before.chunks@.len() ==> is_new(before, after.chunks@.last()),
    ensures
        well_owned(after.anchors@, after.chunks@),
        after.chunks@.len() <= before.chunks@.len() + 1,
{
    if !(after.chunks@ == before.chunks@ && after.anchors@ == before.anchors@) {
        let spacing = before.config.min_anchor_spacing_ms as int;
        let c = after.chunks@.last();
        let (added, chunk_id) = choose|added: Seq<Anchor>, chunk_id: Id|
            (forall|g: int| 0 <= g < added.len() ==> (#[trigger] added[g]).chunk_id == chunk_id)
                && #[trigger] before.takes_anchors(
                added,
                chunk_id,
                start,
                end,
                sample_rate,
                evicted,
                &after,
                changes,
            );
        assert(after.chunks@ =~= before.chunks@.push(c));
        lemma_taken_are_owned(before, added, spacing, c, after);
    }
}

/// However audio comes in, anchors have their owners: they stay in order and
/// no two alike, and each is owned by a chunk, the only one that has
/// its identifier or knows of the anchor. Identifiers are random, so this
/// holds as long as a chunk that is added has new ones.
pub proof fn law_anchors_stay_owned(
    before: AlignmentEngine,
    pcm: Seq<u8>,
    sample_rate: i32,
    start: i64,
    end: i64,
    after: AlignmentEngine,
    r: Result<Vec<LineChange>, String>,
)
    requires
        before.ingests(pcm, sample_rate, start, end, &after, r),
        well_owned(before.anchors@, before.chunks@),
        after.chunks@.len() > before.stitched(pcm, sample_rate, start, end).chunks.len() ==> is_new(
            before,
            after.chunks@.last(),
        ),
    ensures
        well_owned(after.anchors@, after.chunks@),
{
    if r is Ok {
        let tolerance = before.config.stitch_tolerance_ms as int;
        let s = before.stitching(pcm, start, end);
        let joined = s.stitched(sample_rate, tolerance);
        let stitched = choose|stitched: AlignmentEngine| #[trigger]
            before.is_stitched(pcm, sample_rate, start, end, &stitched) && stitched.hears(
                joined.pcm,
                joined.start,
                joined.end,
                sample_rate,
                joined.evicted,
                &after,
                r->Ok_0@,
            );
        lemma_stitching_keeps_owners(s, sample_rate, tolerance);
        let c = after.chunks@.last();
        if after.chunks@.len() > joined.chunks.len() {
            assert forall|i: int| 0 <= i < joined.chunks.len() implies (
            #[trigger] joined.chunks[i]).id != c.id && none_shared(
                joined.chunks[i].anchor_ids@,
                c.anchor_ids@,
            ) by {
                assert(s.chunks.contains(joined.chunks[i]));
                let m = choose|m: int|
                    0 <= m < before.chunks@.len() && before.chunks@[m] == joined.chunks[i];
                assert(before.chunks@[m].id != c.id);
            }
            assert forall|k: int| 0 <= k < joined.anchors.len() implies !c.anchor_ids@.contains(
                (#[trigger] joined.anchors[k]).id,
            ) by {
                assert(s.anchors.contains(joined.anchors[k]));
                let m = choose|m: int|
                    0 <= m < before.anchors@.len() && before.anchors@[m] == joined.anchors[k];
                assert(!c.anchor_ids@.contains(before.anchors@[m].id));
            }
        }
        lemma_hearing_keeps_owners(
            stitched,
            joined.pcm,
            joined.start,
            joined.end,
            sample_rate,
            joined.evicted,
            after,
            r->Ok_0@,
        );
    }
}

/// No chunk keeps its audio.
pub open spec fn no_audio_kept(chunks: Seq<ProcessedChunk>) -> bool {
    forall|i: int| 0 <= i < chunks.len() ==> (#[trigger] chunks[i]).pcm_data@.len() == 0
}

/// Memory does not grow with the length of the audio: no chunk ever keeps its
/// audio, and each time audio comes in there is at most one chunk more.
pub proof fn law_audio_is_not_kept(
    before: AlignmentEngine,
    pcm: Seq<u8>,
    sample_rate: i32,
    start: i64,
    end: i64,
    after: AlignmentEngine,
    r: Result<Vec<LineChange>, String>,
)
    requires
        before.ingests(pcm, sample_rate, start, end, &after, r),
        no_audio_kept(before.chunks@),
    ensures
        no_audio_kept(after.chunks@),
        after.chunks@.len() <= before.chunks@.len() + 1,
{
    if r is Ok {
        let tolerance = before.config.stitch_tolerance_ms as int;
        let s = before.stitching(pcm, start, end);
        let joined = s.stitched(sample_rate, tolerance);
        lemma_stitching_keeps_no_audio(s, sample_rate, tolerance);
        if !(after.chunks@ == joined.chunks) {
            assert forall|i: int| 0 <= i < after.chunks@.len() implies (
            #[trigger] after.chunks@[i]).pcm_data@.len() == 0 by {
                if i < joined.chunks.len() {
                    assert(after.chunks@.drop_last()[i] == joined.chunks[i]);
                }
            }
        }
    }
}

/// Stitching brings in no chunk.
proof fn lemma_stitching_keeps_no_audio(s: Stitching, sample_rate: i32, tolerance: int)
    requires
        no_audio_kept(s.chunks),
    ensures
        no_audio_kept(s.stitched(sample_rate, tolerance).chunks),
        s.stitched(sample_rate, tolerance).chunks.len() <= s.chunks.len(),
    decreases s.chunks.len(),
{
    let i = s.next(sample_rate, tolerance);
    if 0 <= i < s.chunks.len() {
        let t = s.swallow(i, sample_rate);
        assert forall|j: int| 0 <= j < t.chunks.len() implies (
        #[trigger] t.chunks[j]).pcm_data@.len() == 0 by {
            let jj = if j < i {
                j
            } else {
                j + 1
            };
            assert(t.chunks[j] == s.chunks[jj]);
        }
        lemma_stitching_keeps_no_audio(t, sample_rate, tolerance);
    }
}

} // verus!
