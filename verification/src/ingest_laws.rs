//! What taking in audio does to the engine, step by step.

use crate::alignment::alignment;
use crate::anchor::Anchor;
use crate::binary64::Binary64;
use crate::conflict::{all_win, rival_ids};
use crate::conflict_laws::{
    law_close_anchors_are_beaten, law_who_goes_stands_too_close,
    law_who_turns_away_stands_too_close,
};
use crate::engine::{recomputed, AlignmentEngine, ProcessedChunk};
use crate::engine_laws::law_new_anchors_come_all_or_none;
use crate::extraction::extracted;
use crate::extraction_laws::{cut_at_jumps, law_anchors_stand_for_runs, stands_for_run_at};
use crate::ids::Id;
use crate::ingest::coarse_shift;
use crate::proto::LineChange;
use crate::stitch::Stitching;
use crate::stitch_laws::{law_stretch_begins_with_the_earliest, law_what_is_left_lies_apart};
use crate::time_span::TimeSpan;
use crate::vad::{mode_of, rate_of, speech_in};
use crate::window_laws::{
    are_spans_of, law_lines_concerned_are_near, lemma_spans_at, lists_lines_within,
};
use vstd::prelude::*;

verus! {

/// Audio is refused where no subtitle is loaded, or at a sample rate other
/// than 8000 and 16000, and nothing changes; all other audio is taken in. The
/// configuration and the subtitle that was loaded stay.
pub proof fn law_what_is_refused(
    before: AlignmentEngine,
    pcm: Seq<u8>,
    sample_rate: i32,
    start: i64,
    end: i64,
    after: AlignmentEngine,
    r: Result<Vec<LineChange>, String>,
)
    requires
        before.ingests(pcm, sample_rate, start, end, &after, r),
    ensures
        r is Ok <==> before.subtitle is Some && (sample_rate == 8000 || sample_rate == 16000),
        r matches Err(e) ==> after == before && (before.subtitle is None ==> e@
            == "no subtitle loaded"@) && (before.subtitle is Some ==> e@
            == "sample_rate must be 8000 or 16000"@),
        after.config == before.config,
        after.subtitle is Some == before.subtitle is Some,
        before.subtitle matches Some(sub) ==> {
            &&& after.subtitle->0.original_timespans == sub.original_timespans
            &&& after.subtitle->0.line_texts == sub.line_texts
            &&& after.subtitle->0.raw_content == sub.raw_content
            &&& after.subtitle->0.format_str == sub.format_str
        },
{
}

/// The audio that the engine aligns comes from stitching: the audio at hand
/// and the chunks of the same sample rate within the tolerance of it. None of
/// these is left.
pub proof fn law_nothing_near_is_left(
    engine: AlignmentEngine,
    pcm: Seq<u8>,
    sample_rate: i32,
    start: i64,
    end: i64,
    i: int,
)
    requires
        0 <= i < engine.stitched(pcm, sample_rate, start, end).chunks.len(),
        engine.stitched(pcm, sample_rate, start, end).chunks[i].sample_rate == sample_rate,
    ensures
        ({
            let joined = engine.stitched(pcm, sample_rate, start, end);
            let c = joined.chunks[i];
            let tolerance = engine.config.stitch_tolerance_ms;
            &&& c.film_end_ms <= joined.start || joined.end <= c.film_start_ms
            &&& joined.start - c.film_end_ms > tolerance || c.film_end_ms - joined.start > tolerance
            &&& joined.end - c.film_start_ms > tolerance || c.film_start_ms - joined.end > tolerance
        }),
        engine.stitched(pcm, sample_rate, start, end) == (Stitching {
            pcm,
            start,
            end,
            chunks: engine.chunks@,
            anchors: engine.anchors@,
            evicted: false,
        }).stitched(sample_rate, engine.config.stitch_tolerance_ms as int),
{
    law_what_is_left_lies_apart(
        engine.stitching(pcm, start, end),
        sample_rate,
        engine.config.stitch_tolerance_ms as int,
        i,
    );
}

/// What is heard is all that was joined: the audio of the whole stretch, from
/// where it begins to where it ends, by an engine without the chunks and anchors
/// that went into it. A chunk that is remembered stands for the whole stretch,
/// which begins no later than the audio did that was taken in.
pub proof fn law_the_whole_stretch_is_heard(
    before: AlignmentEngine,
    pcm: Seq<u8>,
    sample_rate: i32,
    start: i64,
    end: i64,
    after: AlignmentEngine,
    r: Result<Vec<LineChange>, String>,
    c: ProcessedChunk,
) -> (rest: AlignmentEngine)
    requires
        before.ingests(pcm, sample_rate, start, end, &after, r),
        r is Ok,
    ensures
        ({
            let joined = before.stitched(pcm, sample_rate, start, end);
            let last = after.chunks@.last();
            &&& rest.config == before.config
            &&& rest.subtitle == before.subtitle
            &&& rest.anchors@ == joined.anchors
            &&& rest.chunks@ == joined.chunks
            &&& rest.hears(
                joined.pcm,
                joined.start,
                joined.end,
                sample_rate,
                joined.evicted,
                &after,
                r->Ok_0@,
            )
            &&& joined.chunks.len() <= after.chunks@.len() <= joined.chunks.len() + 1
            &&& after.chunks@.take(joined.chunks.len() as int) == joined.chunks
            &&& after.chunks@.len() > joined.chunks.len() ==> {
                &&& last.film_start_ms == joined.start
                &&& last.film_end_ms == joined.end
                &&& last.sample_rate == sample_rate
                &&& last.film_start_ms <= start
                &&& before.chunks@.contains(c) && !joined.chunks.contains(c) ==> last.film_start_ms
                    <= c.film_start_ms
            }
        }),
{
    let joined = before.stitched(pcm, sample_rate, start, end);
    let rest = choose|rest: AlignmentEngine| #[trigger]
        before.is_stitched(pcm, sample_rate, start, end, &rest) && rest.hears(
            joined.pcm,
            joined.start,
            joined.end,
            sample_rate,
            joined.evicted,
            &after,
            r->Ok_0@,
        );
    law_stretch_begins_with_the_earliest(
        before.stitching(pcm, start, end),
        sample_rate,
        before.config.stitch_tolerance_ms as int,
        c,
    );
    if after.chunks@.len() == joined.chunks.len() {
        assert(after.chunks@.take(joined.chunks.len() as int) =~= joined.chunks);
    } else {
        assert(after.chunks@.take(joined.chunks.len() as int) =~= after.chunks@.drop_last());
    }
    rest
}

/// Speech is aligned, by the penalty of the configuration and without a
/// shortcut, to the lines within the largest drift and the buffer of the
/// stretch, once the coarse shift is added. Where nothing is said, or there
/// are no such lines, nothing is done.
pub proof fn law_speech_is_aligned_to_lines_near(
    before: AlignmentEngine,
    pcm: Seq<u8>,
    start: i64,
    end: i64,
    sample_rate: i32,
    evicted: bool,
    after: AlignmentEngine,
    changes: Seq<LineChange>,
    speech: Seq<TimeSpan>,
    indices: Seq<usize>,
    spans: Seq<TimeSpan>,
)
    requires
        before.hears(pcm, start, end, sample_rate, evicted, &after, changes),
        before.subtitle is Some,
        rate_of(sample_rate as int) is Some,
        speech == speech_in(
            pcm,
            rate_of(sample_rate as int)->0,
            mode_of(before.config.vad_mode as int),
            start as int,
        ),
        ({
            let lines = before.subtitle->0.original_timespans@;
            let shift = coarse_shift(before.config, lines, speech, start as int, end as int);
            &&& lines.len() <= usize::MAX
            &&& lists_lines_within(
                indices,
                lines,
                start + shift - before.config.max_drift_ms - before.config.coverage_buffer_ms,
                end + shift + before.config.max_drift_ms + before.config.coverage_buffer_ms,
            )
            &&& are_spans_of(spans, lines, indices)
        }),
    ensures
        speech.len() == 0 || indices.len() == 0 ==> {
            &&& after.anchors@ == before.anchors@
            &&& after.chunks@ == before.chunks@
            &&& after.subtitle == before.subtitle
            &&& changes.len() == 0
        },
        speech.len() > 0 && indices.len() > 0 ==> before.settles(
            indices,
            alignment(speech, spans, before.config.split_penalty, None).0,
            alignment(speech, spans, before.config.split_penalty, None).1,
            start,
            end,
            sample_rate,
            evicted,
            &after,
            changes,
        ),
{
    let lines = before.subtitle->0.original_timespans@;
    let shift = coarse_shift(before.config, lines, speech, start as int, end as int);
    law_lines_concerned_are_near(
        before.config,
        lines,
        start as int,
        end as int,
        shift,
        indices,
    );
    lemma_spans_at(lines, indices, spans);
}

/// Whether no anchor and no chunk has come or gone. The lines follow the
/// anchors if stitching has taken some away, and stay where they are
/// otherwise.
pub open spec fn alignment_is_dropped(
    before: AlignmentEngine,
    evicted: bool,
    after: AlignmentEngine,
    changes: Seq<LineChange>,
) -> bool {
    &&& after.config == before.config
    &&& after.anchors@ == before.anchors@
    &&& after.chunks@ == before.chunks@
    &&& evicted ==> recomputed(before.subtitle, before.anchors@, after.subtitle, changes)
    &&& !evicted ==> after.subtitle == before.subtitle && changes.len() == 0
}

/// An alignment whose score is below the threshold of the configuration is
/// dropped.
pub proof fn law_poor_alignment_is_dropped(
    before: AlignmentEngine,
    indices: Seq<usize>,
    deltas: Seq<i64>,
    score: Binary64,
    start: i64,
    end: i64,
    sample_rate: i32,
    evicted: bool,
    after: AlignmentEngine,
    changes: Seq<LineChange>,
)
    requires
        before.settles(
            indices,
            deltas,
            score,
            start,
            end,
            sample_rate,
            evicted,
            &after,
            changes,
        ),
        score.lt(before.config.quality_threshold),
    ensures
        alignment_is_dropped(before, evicted, after, changes),
{
}

/// Whether two anchors are at different places less than the spacing apart.
pub open spec fn too_close(a: Anchor, n: Anchor, spacing: int) -> bool {
    &&& a.film_position_ms != n.film_position_ms
    &&& -spacing < a.film_position_ms - n.film_position_ms < spacing
}

/// Whether an old anchor stands too close to a new one that is not surer.
pub open spec fn is_in_the_way(old_anchors: Seq<Anchor>, added: Seq<Anchor>, spacing: int) -> bool {
    exists|k: int, i: int|
        0 <= k < added.len() && 0 <= i < old_anchors.len() && too_close(
            #[trigger] old_anchors[i],
            #[trigger] added[k],
            spacing,
        ) && !old_anchors[i].confidence.lt(added[k].confidence)
}

/// Whether an anchor stands too close to one of the new ones.
pub open spec fn is_near_added(a: Anchor, added: Seq<Anchor>, spacing: int) -> bool {
    exists|k: int| 0 <= k < added.len() && too_close(a, #[trigger] added[k], spacing)
}

/// Whether the new anchors have come in, with a chunk of their own for the
/// stretch: of the old ones only such are gone that share the identifier of one
/// that stood too close, and the lines follow.
pub open spec fn anchors_have_come_in(
    before: AlignmentEngine,
    added: Seq<Anchor>,
    chunk_id: Id,
    start: i64,
    end: i64,
    sample_rate: i32,
    after: AlignmentEngine,
    changes: Seq<LineChange>,
) -> bool {
    let spacing = before.config.min_anchor_spacing_ms as int;
    let c = after.chunks@.last();
    &&& after.config == before.config
    &&& after.chunks@.len() == before.chunks@.len() + 1
    &&& after.chunks@.drop_last() == before.chunks@
    &&& c.id == chunk_id
    &&& c.film_start_ms == start
    &&& c.film_end_ms == end
    &&& c.sample_rate == sample_rate
    &&& c.pcm_data@.len() == 0
    &&& c.anchor_ids@.len() == added.len()
    &&& forall|k: int| 0 <= k < added.len() ==> #[trigger] c.anchor_ids@[k] == added[k].id
    &&& forall|a: Anchor| #[trigger] added.contains(a) ==> after.anchors@.contains(a)
    &&& forall|a: Anchor| #[trigger]
        after.anchors@.contains(a) ==> added.contains(a) || before.anchors@.contains(a)
    &&& forall|a: Anchor|
        before.anchors@.contains(a) && !(#[trigger] after.anchors@.contains(a))
            ==> exists|i: int|
            0 <= i < before.anchors@.len() && (#[trigger] before.anchors@[i]).id == a.id
                && is_near_added(before.anchors@[i], added, spacing)
    &&& recomputed(before.subtitle, after.anchors@, after.subtitle, changes)
}

/// An alignment with a good score becomes anchors, one for each run of lines
/// that are shifted by about the same. If there are any, and none of the old
/// anchors is in the way, they come in; if one is, all of them are turned away
/// and nothing changes. Anchors that are no less than the spacing apart are
/// never in each other's way.
pub proof fn law_good_alignment_becomes_anchors(
    before: AlignmentEngine,
    indices: Seq<usize>,
    deltas: Seq<i64>,
    score: Binary64,
    start: i64,
    end: i64,
    sample_rate: i32,
    evicted: bool,
    after: AlignmentEngine,
    changes: Seq<LineChange>,
) -> (r: (Seq<Anchor>, Id, Seq<int>))
    requires
        before.settles(
            indices,
            deltas,
            score,
            start,
            end,
            sample_rate,
            evicted,
            &after,
            changes,
        ),
        !score.lt(before.config.quality_threshold),
    ensures
        ({
            let (added, chunk_id, cuts) = r;
            let spacing = before.config.min_anchor_spacing_ms as int;
            let came_in = anchors_have_come_in(
                before,
                added,
                chunk_id,
                start,
                end,
                sample_rate,
                after,
                changes,
            );
            &&& deltas.len() == 0 || indices.len() == 0 ==> added.len() == 0
            &&& deltas.len() > 0 && indices.len() > 0 ==> {
                &&& cuts.len() == added.len() + 1
                &&& cuts[0] == 0
                &&& cuts.last() <= deltas.len() && cuts.last() <= indices.len()
                &&& cuts.last() == deltas.len() || cuts.last() == indices.len()
                &&& cut_at_jumps(cuts, deltas, before.config.split_threshold_ms as int)
                &&& forall|g: int|
                    0 <= g < added.len() ==> #[trigger] stands_for_run_at(
                        added[g],
                        cuts,
                        g,
                        before.subtitle->0.original_timespans@,
                        indices,
                        deltas,
                        score,
                        chunk_id,
                    )
            }
            &&& added.len() == 0 ==> alignment_is_dropped(before, false, after, changes)
            &&& added.len() > 0 ==> came_in || (alignment_is_dropped(
                before,
                evicted,
                after,
                changes,
            ) && is_in_the_way(before.anchors@, added, spacing))
            &&& added.len() > 0 && (forall|i: int|
                0 <= i < before.anchors@.len() ==> !is_near_added(
                    #[trigger] before.anchors@[i],
                    added,
                    spacing,
                )) ==> came_in
        }),
{
    let spacing = before.config.min_anchor_spacing_ms as int;
    let lines = before.subtitle->0.original_timespans@;
    let threshold = before.config.split_threshold_ms as int;
    let (added, chunk_id) = choose|added: Seq<Anchor>, chunk_id: Id| #[trigger]
        extracted(added, lines, indices, deltas, threshold, score, chunk_id)
            && crate::ids::is_random_id(chunk_id) && before.takes_anchors(
            added,
            chunk_id,
            start,
            end,
            sample_rate,
            evicted,
            &after,
            changes,
        );
    let cuts = law_anchors_stand_for_runs(
        added,
        lines,
        indices,
        deltas,
        threshold,
        score,
        chunk_id,
    );
    if added.len() > 0 {
        if all_win(before.anchors@, added, spacing) {
            lemma_came_in(
                before,
                added,
                chunk_id,
                start,
                end,
                sample_rate,
                evicted,
                after,
                changes,
            );
        } else {
            law_who_turns_away_stands_too_close(before.anchors@, added, spacing);
            let (k, i) = choose|k: int, i: int|
                {
                    let n = #[trigger] added[k];
                    let a = #[trigger] before.anchors@[i];
                    &&& 0 <= k < added.len()
                    &&& 0 <= i < before.anchors@.len()
                    &&& a.film_position_ms != n.film_position_ms
                    &&& -spacing < a.film_position_ms - n.film_position_ms < spacing
                    &&& !a.confidence.lt(n.confidence)
                };
            assert(too_close(before.anchors@[i], added[k], spacing));
            assert(is_near_added(before.anchors@[i], added, spacing));
            assert(is_in_the_way(before.anchors@, added, spacing));
        }
    }
    (added, chunk_id, cuts)
}

/// New anchors that beat their rivals come in.
proof fn lemma_came_in(
    before: AlignmentEngine,
    added: Seq<Anchor>,
    chunk_id: Id,
    start: i64,
    end: i64,
    sample_rate: i32,
    evicted: bool,
    after: AlignmentEngine,
    changes: Seq<LineChange>,
)
    requires
        before.takes_anchors(
            added,
            chunk_id,
            start,
            end,
            sample_rate,
            evicted,
            &after,
            changes,
        ),
        added.len() > 0,
        all_win(before.anchors@, added, before.config.min_anchor_spacing_ms as int),
    ensures
        anchors_have_come_in(
            before,
            added,
            chunk_id,
            start,
            end,
            sample_rate,
            after,
            changes,
        ),
{
    let spacing = before.config.min_anchor_spacing_ms as int;
    let gone = rival_ids(before.anchors@, added, spacing);
    assert forall|a: Anchor|
        #![trigger after.anchors@.contains(a)]
        #![trigger added.contains(a)]
        after.anchors@.contains(a) <==> added.contains(a) || before.anchors@.contains(a)
            && !gone.contains(a.id) by {
        law_new_anchors_come_all_or_none(
            before,
            added,
            chunk_id,
            start,
            end,
            sample_rate,
            evicted,
            after,
            changes,
            a,
        );
    }
    assert forall|a: Anchor|
        before.anchors@.contains(a) && !(#[trigger] after.anchors@.contains(a)) implies exists|
        i: int,
    |
        0 <= i < before.anchors@.len() && (#[trigger] before.anchors@[i]).id == a.id
            && is_near_added(before.anchors@[i], added, spacing) by {
        law_who_goes_stands_too_close(before.anchors@, added, spacing, a.id);
        let (k, i) = choose|k: int, i: int|
            {
                let n = #[trigger] added[k];
                let b = #[trigger] before.anchors@[i];
                &&& 0 <= k < added.len()
                &&& 0 <= i < before.anchors@.len()
                &&& b.id == a.id
                &&& b.film_position_ms != n.film_position_ms
                &&& -spacing < b.film_position_ms - n.film_position_ms < spacing
            };
        assert(too_close(before.anchors@[i], added[k], spacing));
        assert(is_near_added(before.anchors@[i], added, spacing));
    }
}

/// Where new anchors have come in, each has won: if an old anchor stood too
/// close to it, then an old one on the same side, at least as close, was less
/// sure, and none with its identifier is left but the new ones.
pub proof fn law_newcomers_have_won(
    before: AlignmentEngine,
    added: Seq<Anchor>,
    chunk_id: Id,
    start: i64,
    end: i64,
    sample_rate: i32,
    evicted: bool,
    after: AlignmentEngine,
    changes: Seq<LineChange>,
    i: int,
    k: int,
) -> (j: int)
    requires
        before.takes_anchors(
            added,
            chunk_id,
            start,
            end,
            sample_rate,
            evicted,
            &after,
            changes,
        ),
        after.chunks@.len() > before.chunks@.len(),
        0 <= i < before.anchors@.len(),
        0 <= k < added.len(),
        too_close(before.anchors@[i], added[k], before.config.min_anchor_spacing_ms as int),
    ensures
        0 <= j < before.anchors@.len(),
        before.anchors@[j].confidence.lt(added[k].confidence),
        before.anchors@[i].film_position_ms < added[k].film_position_ms
            ==> before.anchors@[i].film_position_ms <= before.anchors@[j].film_position_ms
            < added[k].film_position_ms,
        before.anchors@[i].film_position_ms > added[k].film_position_ms
            ==> before.anchors@[i].film_position_ms >= before.anchors@[j].film_position_ms
            > added[k].film_position_ms,
        forall|a: Anchor| #[trigger]
            after.anchors@.contains(a) && a.id == before.anchors@[j].id ==> added.contains(a),
{
    let spacing = before.config.min_anchor_spacing_ms as int;
    let (old_anchors, n) = (before.anchors@, added[k]);
    let gone = rival_ids(old_anchors, added, spacing);
    assert(all_win(old_anchors, added, spacing));
    law_close_anchors_are_beaten(old_anchors, added, spacing, k, i);
    let j = if old_anchors[i].film_position_ms < n.film_position_ms {
        choose|j: int|
            {
                &&& 0 <= j < old_anchors.len()
                &&& old_anchors[i].film_position_ms <= (#[trigger] old_anchors[j]).film_position_ms
                    < n.film_position_ms
                &&& old_anchors[j].confidence.lt(n.confidence)
                &&& gone.contains(old_anchors[j].id)
            }
    } else {
        choose|j: int|
            {
                &&& 0 <= j < old_anchors.len()
                &&& n.film_position_ms < (#[trigger] old_anchors[j]).film_position_ms
                    <= old_anchors[i].film_position_ms
                &&& old_anchors[j].confidence.lt(n.confidence)
                &&& gone.contains(old_anchors[j].id)
            }
    };
    assert forall|a: Anchor| #[trigger]
        after.anchors@.contains(a) && a.id == old_anchors[j].id implies added.contains(a) by {
        law_new_anchors_come_all_or_none(
            before,
            added,
            chunk_id,
            start,
            end,
            sample_rate,
            evicted,
            after,
            changes,
            a,
        );
    }
    j
}

} // verus!
