//! Taking in audio: how a chunk goes through stitching, voice detection, a
//! coarse sweep, the alignment, the quality gate and conflict resolution, and
//! what becomes of the anchors and the corrected times.

use crate::alignment::{
    align, alignable, alignment, check_penalty, is_penalty, lemma_penalty_of_fewer,
    ALIGN_MAX_SPANS, MAX_DELTA_MS,
};
use crate::anchor::Anchor;
use crate::binary64::Binary64;
use crate::conflict::{all_inserted, all_win, insert_all, resolve, rival_ids};
use crate::conflict_laws::law_distant_anchors_are_left_alone;
use crate::engine::{
    anchors_in_range, config_in_range, lemma_window_indices, recomputed, spans_at, spans_in_range,
    swept, window_indices, AlignmentEngine, EngineConfig, ProcessedChunk, SubtitleState,
    CORRECTED_LIMIT_MS, TIME_LIMIT_MS,
};
use crate::extraction::{extract, extracted, lines_in_limit};
use crate::ids::{is_random_id, new_id, Id};
use crate::proto::LineChange;
use crate::stitch::{
    chunks_in_range, keep_others, lemma_stitched, lemma_without, stitch, stitches_within,
    without, Stitching,
};
use crate::stitch_laws::law_what_is_left_lies_apart;
use crate::time_span::TimeSpan;
use crate::vad::{
    frames_of, law_speech_spans_are_merged, mode_of, rate_of, run_vad, speech_in,
    voice_flags,
};
use std::collections::HashSet;
use vstd::prelude::*;

verus! {

/// No audio that comes together in stitching is longer than this many bytes.
pub const MAX_AUDIO_BYTES: u64 = 0x10_0000_0000;

/// The identifiers of anchors.
pub open spec fn ids_of(anchors: Seq<Anchor>) -> Seq<Id> {
    Seq::new(anchors.len(), |i: int| anchors[i].id)
}

/// The shift with which the lines around a stretch of the film fit best as a
/// whole to the speech heard there; none if there are no such lines.
pub open spec fn coarse_shift(
    config: EngineConfig,
    lines: Seq<(i64, i64)>,
    speech: Seq<TimeSpan>,
    start: int,
    end: int,
) -> int {
    let broad = spans_at(
        lines,
        window_indices(
            lines,
            start - 2 * config.max_drift_ms,
            end + 2 * config.max_drift_ms,
            lines.len() as int,
        ),
    );
    if broad.len() == 0 {
        0
    } else {
        swept(config, speech, broad).0 as int
    }
}

/// The indices of the lines that a stretch of the film may concern, given the
/// coarse shift.
pub open spec fn lines_concerned(
    config: EngineConfig,
    lines: Seq<(i64, i64)>,
    start: int,
    end: int,
    shift: int,
) -> Seq<usize> {
    window_indices(
        lines,
        start - config.max_drift_ms + shift - config.coverage_buffer_ms,
        end + config.max_drift_ms + shift + config.coverage_buffer_ms,
        lines.len() as int,
    )
}

impl AlignmentEngine {
    /// The new audio next to what the engine holds.
    pub open spec fn stitching(&self, pcm: Seq<u8>, start: i64, end: i64) -> Stitching {
        Stitching {
            pcm,
            start,
            end,
            chunks: self.chunks@,
            anchors: self.anchors@,
            evicted: false,
        }
    }

    /// The audio, the chunks and the anchors once the new audio has swallowed
    /// every chunk that it touches.
    pub open spec fn stitched(
        &self,
        pcm: Seq<u8>,
        sample_rate: i32,
        start: i64,
        end: i64,
    ) -> Stitching {
        self.stitching(pcm, start, end).stitched(
            sample_rate,
            self.config.stitch_tolerance_ms as int,
        )
    }

    /// Whether audio can be taken in: everything lies within the limits of the
    /// engine, also after stitching. Audio that is refused has no limits.
    pub open spec fn can_take(
        &self,
        pcm: Seq<u8>,
        sample_rate: i32,
        start: i64,
        end: i64,
    ) -> bool {
        self.subtitle is Some && rate_of(sample_rate as int) is Some ==> {
            &&& self.in_range()
            &&& config_in_range(self.config)
            &&& is_penalty(
                self.config.split_penalty,
                self.subtitle->0.original_timespans@.len(),
            )
            &&& chunks_in_range(self.chunks@)
            &&& -TIME_LIMIT_MS <= start <= TIME_LIMIT_MS
            &&& -TIME_LIMIT_MS <= end <= TIME_LIMIT_MS
            &&& self.stitched(pcm, sample_rate, start, end).pcm.len() <= MAX_AUDIO_BYTES
            &&& self.stitched(pcm, sample_rate, start, end).pcm.len() <= usize::MAX
        }
    }

    /// Whether `after` is the engine with the given anchors and chunks, and
    /// all else as it was.
    pub open spec fn has_become(
        &self,
        anchors: Seq<Anchor>,
        chunks: Seq<ProcessedChunk>,
        after: &Self,
    ) -> bool {
        &&& after.config == self.config
        &&& after.subtitle == self.subtitle
        &&& after.anchors@ == anchors
        &&& after.chunks@ == chunks
    }

    /// Whether `after` is the engine with the given anchors and chunks and the
    /// corrected times that belong to them, and the changes are those of the
    /// corrected times.
    pub open spec fn has_moved(
        &self,
        anchors: Seq<Anchor>,
        chunks: Seq<ProcessedChunk>,
        after: &Self,
        changes: Seq<LineChange>,
    ) -> bool {
        &&& after.config == self.config
        &&& after.anchors@ == anchors
        &&& after.chunks@ == chunks
        &&& recomputed(self.subtitle, anchors, after.subtitle, changes)
    }

    /// What a chunk that brings no anchors leaves behind: the corrected times
    /// follow if stitching has taken anchors away, and nothing changes
    /// otherwise.
    pub open spec fn falls_back(
        &self,
        evicted: bool,
        after: &Self,
        changes: Seq<LineChange>,
    ) -> bool {
        if evicted {
            self.has_moved(self.anchors@, self.chunks@, after, changes)
        } else {
            self.has_become(self.anchors@, self.chunks@, after) && changes == Seq::<
                LineChange,
            >::empty()
        }
    }

    /// What becomes of an alignment of a stretch of the film that gave these
    /// anchors for the chunk `chunk_id`: if all of them are surer than their
    /// rivals, they take their place and the chunk is remembered; else the
    /// alignment is dropped.
    pub open spec fn takes_anchors(
        &self,
        added: Seq<Anchor>,
        chunk_id: Id,
        start: i64,
        end: i64,
        sample_rate: i32,
        evicted: bool,
        after: &Self,
        changes: Seq<LineChange>,
    ) -> bool {
        let spacing = self.config.min_anchor_spacing_ms as int;
        if added.len() == 0 {
            self.has_become(self.anchors@, self.chunks@, after) && changes == Seq::<
                LineChange,
            >::empty()
        } else if !all_win(self.anchors@, added, spacing) {
            self.falls_back(evicted, after, changes)
        } else {
            &&& after.chunks@.len() == self.chunks@.len() + 1
            &&& after.chunks@.drop_last() == self.chunks@
            &&& is_chunk_of(after.chunks@.last(), chunk_id, start, end, sample_rate, added)
            &&& self.has_moved(
                all_inserted(
                    without(self.anchors@, rival_ids(self.anchors@, added, spacing)),
                    added,
                ),
                after.chunks@,
                after,
                changes,
            )
        }
    }

    /// What becomes of the shifts that an alignment of a stretch of the film
    /// found for the lines with the given indices: they are dropped if the
    /// score is below the threshold, and give anchors otherwise. Which
    /// identifiers the anchors and the chunk get is left to chance.
    pub open spec fn settles(
        &self,
        indices: Seq<usize>,
        deltas: Seq<i64>,
        score: Binary64,
        start: i64,
        end: i64,
        sample_rate: i32,
        evicted: bool,
        after: &Self,
        changes: Seq<LineChange>,
    ) -> bool {
        if score.lt(self.config.quality_threshold) {
            self.falls_back(evicted, after, changes)
        } else {
            exists|added: Seq<Anchor>, chunk_id: Id| #[trigger]
                extracted(
                    added,
                    self.subtitle->0.original_timespans@,
                    indices,
                    deltas,
                    self.config.split_threshold_ms as int,
                    score,
                    chunk_id,
                ) && is_random_id(chunk_id) && self.takes_anchors(
                    added,
                    chunk_id,
                    start,
                    end,
                    sample_rate,
                    evicted,
                    after,
                    changes,
                )
        }
    }

    /// What taking in audio does, once it is stitched together.
    pub open spec fn hears(
        &self,
        pcm: Seq<u8>,
        start: i64,
        end: i64,
        sample_rate: i32,
        evicted: bool,
        after: &Self,
        changes: Seq<LineChange>,
    ) -> bool {
        let lines = self.subtitle->0.original_timespans@;
        let speech = speech_in(
            pcm,
            rate_of(sample_rate as int)->0,
            mode_of(self.config.vad_mode as int),
            start as int,
        );
        let shift = coarse_shift(self.config, lines, speech, start as int, end as int);
        let indices = lines_concerned(self.config, lines, start as int, end as int, shift);
        if speech.len() == 0 || indices.len() == 0 {
            self.has_become(self.anchors@, self.chunks@, after) && changes == Seq::<
                LineChange,
            >::empty()
        } else {
            let aligned = alignment(
                speech,
                spans_at(lines, indices),
                self.config.split_penalty,
                None,
            );
            self.settles(
                indices,
                aligned.0,
                aligned.1,
                start,
                end,
                sample_rate,
                evicted,
                after,
                changes,
            )
        }
    }

    /// Whether `after` is the engine with the chunks and anchors that are left
    /// once the new audio has swallowed every chunk that it touches.
    pub open spec fn is_stitched(
        &self,
        pcm: Seq<u8>,
        sample_rate: i32,
        start: i64,
        end: i64,
        after: &Self,
    ) -> bool {
        let joined = self.stitched(pcm, sample_rate, start, end);
        self.has_become(joined.anchors, joined.chunks, after)
    }

    /// What taking in a chunk of audio does.
    pub open spec fn ingests(
        &self,
        pcm: Seq<u8>,
        sample_rate: i32,
        start: i64,
        end: i64,
        after: &Self,
        r: Result<Vec<LineChange>, String>,
    ) -> bool {
        if self.subtitle is None {
            r matches Err(e) && e@ == "no subtitle loaded"@ && *after == *self
        } else if rate_of(sample_rate as int) is None {
            r matches Err(e) && e@ == "sample_rate must be 8000 or 16000"@ && *after == *self
        } else {
            let joined = self.stitched(pcm, sample_rate, start, end);
            &&& r matches Ok(changes)
            &&& exists|stitched: Self| #[trigger]
                self.is_stitched(pcm, sample_rate, start, end, &stitched) && stitched.hears(
                    joined.pcm,
                    joined.start,
                    joined.end,
                    sample_rate,
                    joined.evicted,
                    after,
                    changes@,
                )
        }
    }

    /// Scan chunk history for adjacent/overlapping chunks, merge PCM. Returns
    /// `(pcm, start, end, anchors_evicted)`.
    pub fn stitch_check(&mut self, pcm: Vec<u8>, start: i64, end: i64, sample_rate: i32) -> (r: (
        Vec<u8>,
        i64,
        i64,
        bool,
    ))
        requires
            old(self).stitching(pcm@, start, end).in_range(),
            0 <= sample_rate <= 16000,
            old(self).stitched(pcm@, sample_rate, start, end).pcm.len() <= usize::MAX,
        ensures
            final(self).config == old(self).config,
            final(self).subtitle == old(self).subtitle,
            (Stitching {
                pcm: r.0@,
                start: r.1,
                end: r.2,
                chunks: final(self).chunks@,
                anchors: final(self).anchors@,
                evicted: r.3,
            }) == old(self).stitched(pcm@, sample_rate, start, end),
            forall|i: int|
                0 <= i < final(self).chunks@.len() && (
                #[trigger] final(self).chunks@[i]).sample_rate == sample_rate ==> {
                    let c = final(self).chunks@[i];
                    let tolerance = old(self).config.stitch_tolerance_ms;
                    &&& c.film_end_ms <= r.1 || r.2 <= c.film_start_ms
                    &&& r.1 - c.film_end_ms > tolerance || c.film_end_ms - r.1 > tolerance
                    &&& r.2 - c.film_start_ms > tolerance || c.film_start_ms - r.2 > tolerance
                },
    {
        let tolerance: i64 = self.config.stitch_tolerance_ms;
        let ghost s = self.stitching(pcm@, start, end);
        let ghost joined = s.stitched(sample_rate, tolerance as int);
        proof {
            assert forall|i: int|
                0 <= i < joined.chunks.len() && (#[trigger] joined.chunks[i]).sample_rate
                    == sample_rate implies {
                let c = joined.chunks[i];
                &&& c.film_end_ms <= joined.start || joined.end <= c.film_start_ms
                &&& joined.start - c.film_end_ms > tolerance || c.film_end_ms - joined.start
                    > tolerance
                &&& joined.end - c.film_start_ms > tolerance || c.film_start_ms - joined.end
                    > tolerance
            } by {
                law_what_is_left_lies_apart(s, sample_rate, tolerance as int, i);
            }
        }
        let r: (Vec<u8>, i64, i64, bool) = stitch(
            &mut self.chunks,
            &mut self.anchors,
            pcm,
            start,
            end,
            sample_rate,
            tolerance,
        );
        assert(self.chunks@ == joined.chunks && r.1 == joined.start && r.2 == joined.end);
        r
    }

    /// Group deltas into anchor groups, emit anchors.
    pub fn extract_anchors(
        &self,
        deltas: &[i64],
        window_indices: &[usize],
        score: Binary64,
        chunk_id: Id,
    ) -> (anchors: Vec<Anchor>)
        requires
            deltas@.len() > 0 && window_indices@.len() > 0 ==> {
                &&& self.subtitle matches Some(sub) && lines_in_limit(sub.original_timespans@)
                &&& forall|i: int|
                    0 <= i < window_indices@.len() ==> (#[trigger] window_indices@[i])
                        < self.subtitle->0.original_timespans@.len()
            },
            forall|i: int|
                0 <= i < deltas@.len() ==> -MAX_DELTA_MS <= #[trigger] deltas@[i] <= MAX_DELTA_MS,
        ensures
            extracted(
                anchors@,
                self.subtitle->0.original_timespans@,
                window_indices@,
                deltas@,
                self.config.split_threshold_ms as int,
                score,
                chunk_id,
            ),
            anchors_in_range(anchors@),
    {
        if deltas.len() == 0 || window_indices.len() == 0 {
            return Vec::new();
        }
        match &self.subtitle {
            Some(sub) => extract(
                &sub.original_timespans,
                window_indices,
                deltas,
                self.config.split_threshold_ms,
                score,
                chunk_id,
            ),
            None => Vec::new(),
        }
    }

    /// Conflict resolution. Returns `Some(ids_to_remove)` if all new anchors
    /// win their conflicts, `None` if any loses (discard chunk).
    pub fn resolve_conflicts(&self, new_anchors: &[Anchor]) -> (r: Option<HashSet<Id>>)
        requires
            anchors_in_range(self.anchors@),
            forall|k: int|
                0 <= k < new_anchors@.len() ==> -TIME_LIMIT_MS <= (
                #[trigger] new_anchors@[k]).film_position_ms <= TIME_LIMIT_MS,
        ensures
            r is Some <==> all_win(
                self.anchors@,
                new_anchors@,
                self.config.min_anchor_spacing_ms as int,
            ),
            r matches Some(ids) ==> ids@ == rival_ids(
                self.anchors@,
                new_anchors@,
                self.config.min_anchor_spacing_ms as int,
            ),
            (forall|k: int, i: int|
                0 <= k < new_anchors@.len() && 0 <= i < self.anchors@.len() ==> {
                    ||| (#[trigger] self.anchors@[i]).film_position_ms - (
                    #[trigger] new_anchors@[k]).film_position_ms
                        >= self.config.min_anchor_spacing_ms
                    ||| new_anchors@[k].film_position_ms - self.anchors@[i].film_position_ms
                        >= self.config.min_anchor_spacing_ms
                }) ==> (r matches Some(ids) && ids@ == Set::<Id>::empty()),
    {
        proof {
            let spacing = self.config.min_anchor_spacing_ms as int;
            if forall|k: int, i: int|
                0 <= k < new_anchors@.len() && 0 <= i < self.anchors@.len() ==> {
                    ||| (#[trigger] self.anchors@[i]).film_position_ms - (
                    #[trigger] new_anchors@[k]).film_position_ms >= spacing
                    ||| new_anchors@[k].film_position_ms - self.anchors@[i].film_position_ms
                        >= spacing
                } {
                law_distant_anchors_are_left_alone(self.anchors@, new_anchors@, spacing);
            }
        }
        resolve(&self.anchors, new_anchors, self.config.min_anchor_spacing_ms)
    }

    /// Recomputes the corrected times if anchors have been taken away.
    fn fall_back(&mut self, evicted: bool) -> (changes: Vec<LineChange>)
        requires
            old(self).wf(),
            old(self).in_range(),
        ensures
            final(self).wf(),
            final(self).in_range(),
            final(self).chunks == old(self).chunks,
            old(self).falls_back(evicted, final(self), changes@),
    {
        if evicted {
            self.recompute_all_and_diff()
        } else {
            Vec::new()
        }
    }

    /// Takes the anchors of a chunk in, or drops them.
    fn take_anchors(
        &mut self,
        new_anchors: Vec<Anchor>,
        chunk_id: Id,
        film_start_ms: i64,
        film_end_ms: i64,
        sample_rate: i32,
        evicted: bool,
    ) -> (changes: Vec<LineChange>)
        requires
            old(self).wf(),
            old(self).in_range(),
            chunks_in_range(old(self).chunks@),
            anchors_in_range(new_anchors@),
            -TIME_LIMIT_MS <= film_start_ms <= TIME_LIMIT_MS,
            -TIME_LIMIT_MS <= film_end_ms <= TIME_LIMIT_MS,
        ensures
            final(self).wf(),
            final(self).in_range(),
            chunks_in_range(final(self).chunks@),
            old(self).takes_anchors(
                new_anchors@,
                chunk_id,
                film_start_ms,
                film_end_ms,
                sample_rate,
                evicted,
                final(self),
                changes@,
            ),
    {
        if new_anchors.len() == 0 {
            return Vec::new();
        }
        let ids_to_remove: HashSet<Id> = match self.resolve_conflicts(new_anchors.as_slice()) {
            None => return self.fall_back(evicted),
            Some(ids) => ids,
        };
        proof {
            lemma_without(self.anchors@, ids_to_remove@);
        }
        self.anchors = keep_others(&self.anchors, &ids_to_remove);
        insert_all(&mut self.anchors, &new_anchors);
        let anchor_ids: Vec<Id> = collect_ids(&new_anchors);
        let ghost before = self.chunks@;
        self.chunks.push(
            ProcessedChunk {
                id: chunk_id,
                film_start_ms,
                film_end_ms,
                pcm_data: Vec::new(),
                sample_rate,
                anchor_ids,
            },
        );
        assert(self.chunks@.drop_last() =~= before);
        self.recompute_all_and_diff()
    }

    /// Makes what an alignment found into anchors and takes them in, unless
    /// its score is too low.
    pub fn settle(
        &mut self,
        indices: &Vec<usize>,
        deltas: &Vec<i64>,
        score: Binary64,
        film_start_ms: i64,
        film_end_ms: i64,
        sample_rate: i32,
        evicted: bool,
    ) -> (changes: Vec<LineChange>)
        requires
            old(self).wf(),
            old(self).in_range(),
            old(self).subtitle is Some,
            chunks_in_range(old(self).chunks@),
            forall|i: int|
                0 <= i < indices@.len() ==> (#[trigger] indices@[i]) < old(
                    self,
                ).subtitle->0.original_timespans@.len(),
            forall|i: int|
                0 <= i < deltas@.len() ==> -MAX_DELTA_MS <= #[trigger] deltas@[i] <= MAX_DELTA_MS,
            -TIME_LIMIT_MS <= film_start_ms <= TIME_LIMIT_MS,
            -TIME_LIMIT_MS <= film_end_ms <= TIME_LIMIT_MS,
        ensures
            final(self).wf(),
            final(self).in_range(),
            chunks_in_range(final(self).chunks@),
            old(self).settles(
                indices@,
                deltas@,
                score,
                film_start_ms,
                film_end_ms,
                sample_rate,
                evicted,
                final(self),
                changes@,
            ),
    {
        if score.less_than(self.config.quality_threshold) {
            return self.fall_back(evicted);
        }
        proof {
            let sub = self.subtitle->0;
            assert forall|i: int| 0 <= i < sub.original_timespans@.len() implies {
                &&& -TIME_LIMIT_MS <= (#[trigger] sub.original_timespans@[i]).0 <= TIME_LIMIT_MS
                &&& -TIME_LIMIT_MS <= sub.original_timespans@[i].1 <= TIME_LIMIT_MS
            } by {
                assert(sub.original_timespans@[i].0 <= sub.original_timespans@[i].1);
            }
        }
        let chunk_id: Id = new_id();
        let new_anchors: Vec<Anchor> = self.extract_anchors(
            deltas.as_slice(),
            indices.as_slice(),
            score,
            chunk_id,
        );
        self.take_anchors(
            new_anchors,
            chunk_id,
            film_start_ms,
            film_end_ms,
            sample_rate,
            evicted,
        )
    }

    /// Aligns the subtitle to stitched audio and takes in what was found.
    fn hear(
        &mut self,
        pcm: &Vec<u8>,
        film_start_ms: i64,
        film_end_ms: i64,
        sample_rate: i32,
        evicted: bool,
    ) -> (changes: Vec<LineChange>)
        requires
            old(self).wf(),
            old(self).in_range(),
            old(self).subtitle is Some,
            rate_of(sample_rate as int) is Some,
            config_in_range(old(self).config),
            is_penalty(
                old(self).config.split_penalty,
                old(self).subtitle->0.original_timespans@.len(),
            ),
            chunks_in_range(old(self).chunks@),
            -TIME_LIMIT_MS <= film_start_ms <= TIME_LIMIT_MS,
            -TIME_LIMIT_MS <= film_end_ms <= TIME_LIMIT_MS,
            pcm@.len() <= MAX_AUDIO_BYTES,
        ensures
            final(self).wf(),
            final(self).in_range(),
            chunks_in_range(final(self).chunks@),
            old(self).hears(
                pcm@,
                film_start_ms,
                film_end_ms,
                sample_rate,
                evicted,
                final(self),
                changes@,
            ),
    {
        let ghost lines = self.subtitle->0.original_timespans@;
        let vad_spans: Vec<TimeSpan> = run_vad(
            pcm.as_slice(),
            sample_rate,
            film_start_ms,
            self.config.vad_mode,
        );
        if vad_spans.len() == 0 {
            return Vec::new();
        }
        proof {
            let rate = rate_of(sample_rate as int)->0;
            let flags = voice_flags(
                rate,
                mode_of(self.config.vad_mode as int),
                frames_of(pcm@, rate),
            );
            law_speech_spans_are_merged(flags, film_start_ms as int);
            assert(alignable(vad_spans@));
        }
        let broad_window: Vec<TimeSpan> = self.subtitle_spans_in_range(
            film_start_ms - 2 * self.config.max_drift_ms,
            film_end_ms + 2 * self.config.max_drift_ms,
        );
        proof {
            self.lemma_window_in_range(
                film_start_ms - 2 * self.config.max_drift_ms,
                film_end_ms + 2 * self.config.max_drift_ms,
            );
        }
        let coarse_delta: i64 = if broad_window.len() == 0 {
            0
        } else {
            let (delta, _score): (i64, Binary64) = self.coarse_sweep(&vad_spans, &broad_window);
            delta
        };
        let win_start: i64 = film_start_ms - self.config.max_drift_ms + coarse_delta
            - self.config.coverage_buffer_ms;
        let win_end: i64 = film_end_ms + self.config.max_drift_ms + coarse_delta
            + self.config.coverage_buffer_ms;
        let (window_spans, window_indices): (Vec<TimeSpan>, Vec<usize>) =
            self.subtitle_window_with_indices(win_start, win_end);
        if window_spans.len() == 0 {
            return Vec::new();
        }
        proof {
            self.lemma_window_in_range(win_start as int, win_end as int);
        }
        proof {
            lemma_penalty_of_fewer(
                self.config.split_penalty,
                window_spans@.len(),
                self.subtitle->0.original_timespans@.len(),
            );
        }
        let (deltas, score): (Vec<i64>, Binary64) = align(
            &vad_spans,
            &window_spans,
            self.config.split_penalty,
            None,
        );
        self.settle(
            &window_indices,
            &deltas,
            score,
            film_start_ms,
            film_end_ms,
            sample_rate,
            evicted,
        )
    }

    /// The lines of a window lie within the limits of the engine.
    proof fn lemma_window_in_range(&self, lo: int, hi: int)
        requires
            self.wf(),
            self.in_range(),
            self.subtitle is Some,
        ensures
            ({
                let lines = self.subtitle->0.original_timespans@;
                let indices = window_indices(lines, lo, hi, lines.len() as int);
                &&& spans_in_range(spans_at(lines, indices))
                &&& alignable(spans_at(lines, indices))
                &&& indices.len() <= lines.len()
                &&& forall|i: int| 0 <= i < indices.len() ==> (#[trigger] indices[i]) < lines.len()
            }),
    {
        let lines = self.subtitle->0.original_timespans@;
        let indices = window_indices(lines, lo, hi, lines.len() as int);
        let spans = spans_at(lines, indices);
        lemma_window_indices(lines, lo, hi, lines.len() as int);
        assert forall|i: int| 0 <= i < spans.len() implies (#[trigger] spans[i]).ordered()
            && spans[i].within(TIME_LIMIT_MS as int) by {
            let k = indices[i] as int;
            assert(lines[k].0 <= lines[k].1);
        }
    }

    /// Takes in the audio of a stretch of the film. Returns how the corrected
    /// times of the lines changed.
    pub fn ingest_chunk(
        &mut self,
        pcm_data: Vec<u8>,
        sample_rate: i32,
        film_start_ms: i64,
        film_end_ms: i64,
    ) -> (r: Result<Vec<LineChange>, String>)
        requires
            old(self).wf(),
            old(self).can_take(pcm_data@, sample_rate, film_start_ms, film_end_ms),
        ensures
            final(self).wf(),
            old(self).ingests(
                pcm_data@,
                sample_rate,
                film_start_ms,
                film_end_ms,
                final(self),
                r,
            ),
            r is Ok ==> final(self).in_range() && chunks_in_range(final(self).chunks@),
    {
        if self.subtitle.is_none() {
            return Err("no subtitle loaded".to_string());
        }
        if sample_rate != 8000 && sample_rate != 16000 {
            return Err("sample_rate must be 8000 or 16000".to_string());
        }
        proof {
            lemma_stitched(
                self.stitching(pcm_data@, film_start_ms, film_end_ms),
                sample_rate,
                self.config.stitch_tolerance_ms as int,
            );
        }
        let (eff_pcm, eff_start, eff_end, stitch_evicted): (Vec<u8>, i64, i64, bool) =
            self.stitch_check(pcm_data, film_start_ms, film_end_ms, sample_rate);
        let ghost stitched = *self;
        let changes: Vec<LineChange> = self.hear(
            &eff_pcm,
            eff_start,
            eff_end,
            sample_rate,
            stitch_evicted,
        );
        assert(old(self).is_stitched(
            pcm_data@,
            sample_rate,
            film_start_ms,
            film_end_ms,
            &stitched,
        ));
        Ok(changes)
    }

    /// Whether `ingest_chunk` can be called with this audio: everything lies
    /// within the limits of the engine, also after stitching.
    pub fn can_ingest(
        &self,
        pcm_data: &Vec<u8>,
        sample_rate: i32,
        film_start_ms: i64,
        film_end_ms: i64,
    ) -> (r: bool)
        ensures
            r == self.can_take(pcm_data@, sample_rate, film_start_ms, film_end_ms),
    {
        let sub: &SubtitleState = match &self.subtitle {
            Some(sub) => sub,
            None => return true,
        };
        if sample_rate != 8000 && sample_rate != 16000 {
            return true;
        }
        if !in_limit(film_start_ms) || !in_limit(film_end_ms) || !in_limit(self.config.max_drift_ms)
            || !in_limit(self.config.coverage_buffer_ms) {
            return false;
        }
        if !lines_in_range(sub) || !check_penalty(
            self.config.split_penalty,
            sub.original_timespans.len(),
        ) || !check_anchors(&self.anchors) || !check_chunks(&self.chunks) {
            return false;
        }
        let limit: usize = if usize::MAX as u128 <= MAX_AUDIO_BYTES as u128 {
            usize::MAX
        } else {
            MAX_AUDIO_BYTES as usize
        };
        stitches_within(
            &self.chunks,
            &self.anchors,
            pcm_data,
            film_start_ms,
            film_end_ms,
            sample_rate,
            self.config.stitch_tolerance_ms,
            limit,
        )
    }
}

/// Whether a time lies within the limits of the engine.
fn in_limit(t: i64) -> (r: bool)
    ensures
        r == (-TIME_LIMIT_MS <= t <= TIME_LIMIT_MS),
{
    -TIME_LIMIT_MS <= t && t <= TIME_LIMIT_MS
}

/// Whether all anchors lie within the limits of the engine.
fn check_anchors(anchors: &Vec<Anchor>) -> (r: bool)
    ensures
        r == anchors_in_range(anchors@),
{
    let mut i: usize = 0;
    while i < anchors.len()
        invariant
            i <= anchors@.len(),
            anchors_in_range(anchors@.take(i as int)),
        decreases anchors@.len() - i,
    {
        let a: Anchor = anchors[i];
        if !in_limit(a.film_position_ms) || a.delta_ms < -MAX_DELTA_MS || a.delta_ms > MAX_DELTA_MS {
            assert(!anchors_in_range(anchors@)) by {
                assert(anchors@[i as int] == a);
            }
            return false;
        }
        let ghost seen = anchors@.take(i as int);
        let ghost next = anchors@.take(i + 1);
        assert forall|k: int| 0 <= k < next.len() implies {
            &&& -TIME_LIMIT_MS <= (#[trigger] next[k]).film_position_ms <= TIME_LIMIT_MS
            &&& -MAX_DELTA_MS <= next[k].delta_ms <= MAX_DELTA_MS
        } by {
            if k < i {
                assert(next[k] == seen[k]);
            }
        }
        i = i + 1;
    }
    assert(anchors@.take(i as int) =~= anchors@);
    true
}

/// Whether all chunks lie within the limits of the engine.
fn check_chunks(chunks: &Vec<ProcessedChunk>) -> (r: bool)
    ensures
        r == chunks_in_range(chunks@),
{
    let mut i: usize = 0;
    while i < chunks.len()
        invariant
            i <= chunks@.len(),
            forall|k: int|
                0 <= k < i ==> {
                    &&& -TIME_LIMIT_MS <= (#[trigger] chunks@[k]).film_start_ms <= TIME_LIMIT_MS
                    &&& -TIME_LIMIT_MS <= chunks@[k].film_end_ms <= TIME_LIMIT_MS
                },
        decreases chunks@.len() - i,
    {
        let c: &ProcessedChunk = &chunks[i];
        if !in_limit(c.film_start_ms) || !in_limit(c.film_end_ms) {
            assert(!chunks_in_range(chunks@)) by {
                assert(chunks@[i as int] == *c);
            }
            return false;
        }
        i = i + 1;
    }
    true
}

/// Whether no time is farther from zero than any corrected time may be.
fn check_corrected(times: &Vec<i64>) -> (r: bool)
    ensures
        r <==> forall|i: int|
            0 <= i < times@.len() ==> -CORRECTED_LIMIT_MS <= #[trigger] times@[i]
                <= CORRECTED_LIMIT_MS,
{
    let mut i: usize = 0;
    while i < times.len()
        invariant
            i <= times@.len(),
            forall|k: int|
                0 <= k < i ==> -CORRECTED_LIMIT_MS <= #[trigger] times@[k] <= CORRECTED_LIMIT_MS,
        decreases times@.len() - i,
    {
        if times[i] < -CORRECTED_LIMIT_MS || times[i] > CORRECTED_LIMIT_MS {
            assert(!(-CORRECTED_LIMIT_MS <= times@[i as int] <= CORRECTED_LIMIT_MS));
            return false;
        }
        i = i + 1;
    }
    true
}

/// Whether the times of a subtitle and their number lie within the limits of
/// the engine.
fn lines_in_range(sub: &SubtitleState) -> (r: bool)
    ensures
        r == sub.in_range(),
{
    if sub.original_timespans.len() > ALIGN_MAX_SPANS {
        return false;
    }
    let mut i: usize = 0;
    while i < sub.original_timespans.len()
        invariant
            i <= sub.original_timespans@.len(),
            forall|k: int|
                0 <= k < i ==> {
                    &&& -TIME_LIMIT_MS <= (#[trigger] sub.original_timespans@[k]).0
                    &&& sub.original_timespans@[k].1 <= TIME_LIMIT_MS
                },
        decreases sub.original_timespans@.len() - i,
    {
        let (start, end): (i64, i64) = sub.original_timespans[i];
        if start < -TIME_LIMIT_MS || end > TIME_LIMIT_MS {
            assert(!sub.in_range()) by {
                assert(sub.original_timespans@[i as int].0 == start);
            }
            return false;
        }
        i = i + 1;
    }
    check_corrected(&sub.corrected_start_ms) && check_corrected(&sub.corrected_end_ms)
}

/// Whether a chunk is that of a stretch of the film and of these anchors. The
/// audio itself is not kept, or memory would grow with the length of a
/// session.
pub open spec fn is_chunk_of(
    c: ProcessedChunk,
    id: Id,
    start: i64,
    end: i64,
    sample_rate: i32,
    anchors: Seq<Anchor>,
) -> bool {
    &&& c.id == id
    &&& c.film_start_ms == start
    &&& c.film_end_ms == end
    &&& c.sample_rate == sample_rate
    &&& c.pcm_data@.len() == 0
    &&& c.anchor_ids@ == ids_of(anchors)
}

/// The identifiers of anchors.
fn collect_ids(anchors: &Vec<Anchor>) -> (ids: Vec<Id>)
    ensures
        ids@ == ids_of(anchors@),
{
    let mut ids: Vec<Id> = Vec::with_capacity(anchors.len());
    let mut i: usize = 0;
    while i < anchors.len()
        invariant
            i <= anchors@.len(),
            ids@ == ids_of(anchors@).take(i as int),
        decreases anchors@.len() - i,
    {
        ids.push(anchors[i].id);
        assert(ids@ =~= ids_of(anchors@).take(i + 1));
        i = i + 1;
    }
    assert(ids@ =~= ids_of(anchors@));
    ids
}

} // verus!
