//! The alignment engine: takes in chunks of audio in any order, finds where
//! the loaded subtitle is out of step with what is heard, and keeps the
//! corrected times of all lines.

use crate::alignment::{
    alignable, nosplit_score, score_without_splits, ALIGN_LIMIT_MS, ALIGN_MAX_SPANS,
    MAX_DELTA_MS,
};
use crate::anchor::{count_upto, in_order, partition_upto};
use crate::binary64::Binary64;
use crate::change_laws::law_changes_tell_the_moves;
use crate::ids::Id;
use crate::proto::LineChange;
use crate::single::narrowed;
use crate::text::{timestamp, timestamp_text};
use crate::time_span::TimeSpan;
use crate::warp::{
    difference_fits, differences_fit, held_after, law_shift_stays_in_range, shift_at,
    truncated_delta,
};
use vstd::prelude::*;

pub use crate::anchor::Anchor;
pub use crate::config::EngineConfig;

verus! {

/// No time that the engine works on lies farther from zero than this many
/// milliseconds.
pub const TIME_LIMIT_MS: i64 = 0x1_0000_0000_0000;

/// No corrected time lies farther from zero than this many milliseconds.
pub const CORRECTED_LIMIT_MS: i64 = 0x10_0000_0000_0000;

/// A stretch of audio that has been aligned.
#[derive(Clone, Debug)]
pub struct ProcessedChunk {
    pub id: Id,
    pub film_start_ms: i64,
    pub film_end_ms: i64,
    /// Raw 16-bit LE PCM bytes.
    pub pcm_data: Vec<u8>,
    pub sample_rate: i32,
    pub anchor_ids: Vec<Id>,
}

/// The loaded subtitle with its corrected times.
#[derive(Clone, Debug)]
pub struct SubtitleState {
    pub format_str: String,
    pub raw_content: Vec<u8>,
    /// (original_start_ms, original_end_ms) per line
    pub original_timespans: Vec<(i64, i64)>,
    pub corrected_start_ms: Vec<i64>,
    pub corrected_end_ms: Vec<i64>,
    /// Subtitle text per line (for SRT export)
    pub line_texts: Vec<String>,
}

/// The alignment engine.
pub struct AlignmentEngine {
    pub config: EngineConfig,
    pub subtitle: Option<SubtitleState>,
    /// Sorted by film position.
    pub anchors: Vec<Anchor>,
    pub chunks: Vec<ProcessedChunk>,
}

// ---------------------------------------------------------------------------
// Model
// ---------------------------------------------------------------------------

impl SubtitleState {
    /// Whether every line has both corrected times and a text, and no line
    /// ends before it starts.
    pub open spec fn wf(&self) -> bool {
        &&& self.corrected_start_ms@.len() == self.original_timespans@.len()
        &&& self.corrected_end_ms@.len() == self.original_timespans@.len()
        &&& self.line_texts@.len() == self.original_timespans@.len()
        &&& forall|i: int|
            0 <= i < self.original_timespans@.len() ==> (#[trigger] self.original_timespans@[i]).0
                <= self.original_timespans@[i].1
    }

    /// Whether the times and their number lie within the limits of the engine.
    pub open spec fn in_range(&self) -> bool {
        &&& self.original_timespans@.len() <= ALIGN_MAX_SPANS
        &&& forall|i: int|
            0 <= i < self.original_timespans@.len() ==> {
                &&& -TIME_LIMIT_MS <= (#[trigger] self.original_timespans@[i]).0
                &&& self.original_timespans@[i].1 <= TIME_LIMIT_MS
            }
        &&& forall|i: int|
            0 <= i < self.corrected_start_ms@.len() ==> -CORRECTED_LIMIT_MS
                <= #[trigger] self.corrected_start_ms@[i] <= CORRECTED_LIMIT_MS
        &&& forall|i: int|
            0 <= i < self.corrected_end_ms@.len() ==> -CORRECTED_LIMIT_MS
                <= #[trigger] self.corrected_end_ms@[i] <= CORRECTED_LIMIT_MS
    }

    /// Whether everything but the corrected times is the same.
    pub open spec fn same_source(&self, other: &Self) -> bool {
        &&& self.format_str == other.format_str
        &&& self.raw_content == other.raw_content
        &&& self.original_timespans == other.original_timespans
        &&& self.line_texts == other.line_texts
    }
}

/// Whether the anchors lie within the limits of the engine.
pub open spec fn anchors_in_range(anchors: Seq<Anchor>) -> bool {
    forall|i: int|
        0 <= i < anchors.len() ==> {
            &&& -TIME_LIMIT_MS <= (#[trigger] anchors[i]).film_position_ms <= TIME_LIMIT_MS
            &&& -MAX_DELTA_MS <= anchors[i].delta_ms <= MAX_DELTA_MS
        }
}

/// Half of `v`, cut off toward zero.
pub open spec fn half_of(v: int) -> int {
    if v >= 0 {
        v / 2
    } else {
        -((-v) / 2)
    }
}

/// The corrected time for an original one: shifted by what the anchors say
/// for that place.
pub open spec fn corrected(anchors: Seq<Anchor>, t: i64) -> i64 {
    (t + shift_at(anchors, t as int)) as i64
}

/// The confidence of the anchor nearest to `t`: of two equally near ones the
/// earlier, and zero if there is none.
pub open spec fn nearest_confidence(anchors: Seq<Anchor>, t: int) -> Binary64 {
    let k = count_upto(anchors, t);
    if anchors.len() == 0 {
        Binary64 { bits: 0 }
    } else if k == 0 {
        anchors[0].confidence
    } else if k >= anchors.len() {
        anchors.last().confidence
    } else if t - anchors[k - 1].film_position_ms <= anchors[k].film_position_ms - t {
        anchors[k - 1].confidence
    } else {
        anchors[k].confidence
    }
}

/// Whether the corrected times of line `i` differ from what the anchors say.
pub open spec fn is_stale(sub: SubtitleState, anchors: Seq<Anchor>, i: int) -> bool {
    let (start, end) = sub.original_timespans@[i];
    ||| corrected(anchors, start) != sub.corrected_start_ms@[i]
    ||| corrected(anchors, end) != sub.corrected_end_ms@[i]
}

/// The change of line `i` to what the anchors say.
pub open spec fn line_change(sub: SubtitleState, anchors: Seq<Anchor>, i: int) -> LineChange {
    let (start, end) = sub.original_timespans@[i];
    let (old_start, old_end) = (sub.corrected_start_ms@[i], sub.corrected_end_ms@[i]);
    let (new_start, new_end) = (corrected(anchors, start), corrected(anchors, end));
    LineChange {
        line_index: i as i32,
        old_start_ms: old_start,
        old_end_ms: old_end,
        new_start_ms: new_start,
        new_end_ms: new_end,
        delta_change_ms: half_of((new_start - old_start) + (new_end - old_end)) as i64,
        confidence: narrowed(nearest_confidence(anchors, start as int)),
    }
}

/// The changes of the first `n` lines: one for each whose corrected times are
/// not what the anchors say, in the order of the lines.
pub open spec fn line_changes(sub: SubtitleState, anchors: Seq<Anchor>, n: int) -> Seq<LineChange>
    decreases n,
{
    if n <= 0 {
        Seq::empty()
    } else if is_stale(sub, anchors, n - 1) {
        line_changes(sub, anchors, n - 1).push(line_change(sub, anchors, n - 1))
    } else {
        line_changes(sub, anchors, n - 1)
    }
}

/// Whether `after` is `before` with the corrected times that the anchors give.
pub open spec fn is_rewarped(
    before: SubtitleState,
    anchors: Seq<Anchor>,
    after: SubtitleState,
) -> bool {
    &&& after.same_source(&before)
    &&& after.corrected_start_ms@.len() == before.corrected_start_ms@.len()
    &&& after.corrected_end_ms@.len() == before.corrected_end_ms@.len()
    &&& forall|i: int|
        0 <= i < before.original_timespans@.len() ==> #[trigger] after.corrected_start_ms@[i]
            == corrected(anchors, before.original_timespans@[i].0)
    &&& forall|i: int|
        0 <= i < before.original_timespans@.len() ==> #[trigger] after.corrected_end_ms@[i]
            == corrected(anchors, before.original_timespans@[i].1)
}

/// Anchors within the limits of the engine are held exactly by doubles, and
/// keep corrected times within the limits.
pub(crate) proof fn lemma_anchors_in_range(anchors: Seq<Anchor>)
    requires
        in_order(anchors),
        anchors_in_range(anchors),
    ensures
        differences_fit(anchors),
        forall|t: int| -MAX_DELTA_MS <= #[trigger] shift_at(anchors, t) <= MAX_DELTA_MS,
{
    assert forall|i: int| 0 < i < anchors.len() implies #[trigger] held_after(anchors, i) by {
        assert(anchors[i - 1].film_position_ms <= anchors[i].film_position_ms);
    }
    assert forall|t: int| -MAX_DELTA_MS <= #[trigger] shift_at(anchors, t) <= MAX_DELTA_MS by {
        if anchors.len() > 0 {
            law_shift_stays_in_range(anchors, t, -MAX_DELTA_MS as int, MAX_DELTA_MS as int);
        }
    }
    assert forall|i: int| 0 < i < anchors.len() implies #[trigger] difference_fits(anchors, i) by {
        assert(anchors[i - 1].film_position_ms <= anchors[i].film_position_ms);
    }
}

/// Half of `v`, cut off toward zero.
pub fn halve(v: i64) -> (r: i64)
    requires
        v > i64::MIN,
    ensures
        r == half_of(v as int),
{
    if v >= 0 {
        v / 2
    } else {
        -((-v) / 2)
    }
}

/// The confidence of the anchor nearest to `t`.
fn confidence_at(anchors: &Vec<Anchor>, t: i64) -> (r: Binary64)
    requires
        in_order(anchors@),
        anchors_in_range(anchors@),
    ensures
        r == nearest_confidence(anchors@, t as int),
{
    if anchors.len() == 0 {
        return Binary64::from_bits(0);
    }
    let idx: usize = partition_upto(anchors.as_slice(), t);
    if idx == 0 {
        return anchors[0].confidence;
    }
    if idx >= anchors.len() {
        return anchors[anchors.len() - 1].confidence;
    }
    let prev: Anchor = anchors[idx - 1];
    let next: Anchor = anchors[idx];
    if t - prev.film_position_ms <= next.film_position_ms - t {
        prev.confidence
    } else {
        next.confidence
    }
}

/// The change of line `i` to the times that the anchors say.
fn make_change(
    sub: &SubtitleState,
    anchors: &Vec<Anchor>,
    i: usize,
    new_start: i64,
    new_end: i64,
) -> (change: LineChange)
    requires
        sub.wf(),
        sub.in_range(),
        i < sub.original_timespans@.len(),
        in_order(anchors@),
        anchors_in_range(anchors@),
        new_start == corrected(anchors@, sub.original_timespans@[i as int].0),
        new_end == corrected(anchors@, sub.original_timespans@[i as int].1),
        -CORRECTED_LIMIT_MS <= new_start <= CORRECTED_LIMIT_MS,
        -CORRECTED_LIMIT_MS <= new_end <= CORRECTED_LIMIT_MS,
    ensures
        change == line_change(*sub, anchors@, i as int),
{
    let old_start: i64 = sub.corrected_start_ms[i];
    let old_end: i64 = sub.corrected_end_ms[i];
    let confidence: Binary64 = confidence_at(anchors, sub.original_timespans[i].0);
    LineChange {
        line_index: i as i32,
        old_start_ms: old_start,
        old_end_ms: old_end,
        new_start_ms: new_start,
        new_end_ms: new_end,
        delta_change_ms: halve((new_start - old_start) + (new_end - old_end)),
        confidence: confidence.narrow(),
    }
}

/// The corrected time for an original one.
fn correct(anchors: &Vec<Anchor>, t: i64) -> (r: i64)
    requires
        in_order(anchors@),
        anchors_in_range(anchors@),
        -TIME_LIMIT_MS <= t <= TIME_LIMIT_MS,
    ensures
        r == corrected(anchors@, t),
        -CORRECTED_LIMIT_MS <= r <= CORRECTED_LIMIT_MS,
{
    proof {
        lemma_anchors_in_range(anchors@);
    }
    t + truncated_delta(anchors.as_slice(), t)
}

/// Gives line `i` the corrected times that the anchors say, and returns the
/// change if there is one.
fn rewarp_line(sub: &mut SubtitleState, anchors: &Vec<Anchor>, i: usize) -> (r: Option<LineChange>)
    requires
        old(sub).wf(),
        old(sub).in_range(),
        i < old(sub).original_timespans@.len(),
        in_order(anchors@),
        anchors_in_range(anchors@),
    ensures
        final(sub).wf(),
        final(sub).in_range(),
        final(sub).same_source(old(sub)),
        final(sub).corrected_start_ms@ == old(sub).corrected_start_ms@.update(
            i as int,
            corrected(anchors@, old(sub).original_timespans@[i as int].0),
        ),
        final(sub).corrected_end_ms@ == old(sub).corrected_end_ms@.update(
            i as int,
            corrected(anchors@, old(sub).original_timespans@[i as int].1),
        ),
        r == if is_stale(*old(sub), anchors@, i as int) {
            Some(line_change(*old(sub), anchors@, i as int))
        } else {
            None
        },
{
    let (orig_start, orig_end): (i64, i64) = sub.original_timespans[i];
    assert(orig_start == sub.original_timespans@[i as int].0);
    let new_start: i64 = correct(anchors, orig_start);
    let new_end: i64 = correct(anchors, orig_end);
    if new_start == sub.corrected_start_ms[i] && new_end == sub.corrected_end_ms[i] {
        return None;
    }
    let change: LineChange = make_change(sub, anchors, i, new_start, new_end);
    sub.corrected_start_ms.set(i, new_start);
    sub.corrected_end_ms.set(i, new_end);
    Some(change)
}

/// Gives every line the corrected times that the anchors say, and returns
/// what changed.
fn rewarp(sub: &mut SubtitleState, anchors: &Vec<Anchor>) -> (changes: Vec<LineChange>)
    requires
        old(sub).wf(),
        old(sub).in_range(),
        in_order(anchors@),
        anchors_in_range(anchors@),
    ensures
        final(sub).wf(),
        final(sub).in_range(),
        is_rewarped(*old(sub), anchors@, *final(sub)),
        changes@ == line_changes(
            *old(sub),
            anchors@,
            old(sub).original_timespans@.len() as int,
        ),
{
    let ghost before = *sub;
    let n: usize = sub.original_timespans.len();
    let mut changes: Vec<LineChange> = Vec::new();
    let mut i: usize = 0;
    while i < n
        invariant
            i <= n,
            before == *old(sub),
            before.wf(),
            n == before.original_timespans@.len(),
            in_order(anchors@),
            anchors_in_range(anchors@),
            sub.wf(),
            sub.in_range(),
            sub.same_source(&before),
            forall|k: int|
                0 <= k < i ==> #[trigger] sub.corrected_start_ms@[k] == corrected(
                    anchors@,
                    before.original_timespans@[k].0,
                ),
            forall|k: int|
                0 <= k < i ==> #[trigger] sub.corrected_end_ms@[k] == corrected(
                    anchors@,
                    before.original_timespans@[k].1,
                ),
            forall|k: int|
                i <= k < n ==> #[trigger] sub.corrected_start_ms@[k]
                    == before.corrected_start_ms@[k],
            forall|k: int|
                i <= k < n ==> #[trigger] sub.corrected_end_ms@[k] == before.corrected_end_ms@[k],
            changes@ == line_changes(before, anchors@, i as int),
        decreases n - i,
    {
        proof {
            assert(sub.corrected_start_ms@[i as int] == before.corrected_start_ms@[i as int]);
            assert(sub.corrected_end_ms@[i as int] == before.corrected_end_ms@[i as int]);
            assert(line_change(*sub, anchors@, i as int) == line_change(
                before,
                anchors@,
                i as int,
            ));
            assert(is_stale(*sub, anchors@, i as int) == is_stale(before, anchors@, i as int));
        }
        match rewarp_line(sub, anchors, i) {
            Some(change) => {
                changes.push(change);
            },
            None => {},
        }
        i = i + 1;
    }
    changes
}

// ---------------------------------------------------------------------------
// Windows and the coarse sweep
// ---------------------------------------------------------------------------

/// Whether a line overlaps the range from `lo` to `hi`, both included.
pub open spec fn overlaps_range(line: (i64, i64), lo: int, hi: int) -> bool {
    line.1 >= lo && line.0 <= hi
}

/// The indices of those of the first `n` lines that overlap the range, in
/// order.
pub open spec fn window_indices(lines: Seq<(i64, i64)>, lo: int, hi: int, n: int) -> Seq<usize>
    decreases n,
{
    if n <= 0 {
        Seq::empty()
    } else if overlaps_range(lines[n - 1], lo, hi) {
        window_indices(lines, lo, hi, n - 1).push((n - 1) as usize)
    } else {
        window_indices(lines, lo, hi, n - 1)
    }
}

/// The spans of the lines with the given indices.
pub open spec fn spans_at(lines: Seq<(i64, i64)>, indices: Seq<usize>) -> Seq<TimeSpan> {
    Seq::new(
        indices.len(),
        |i: int|
            TimeSpan { start: lines[indices[i] as int].0, end: lines[indices[i] as int].1 },
    )
}

/// All spans moved by the same shift.
pub open spec fn shifted_spans(spans: Seq<TimeSpan>, delta: int) -> Seq<TimeSpan> {
    Seq::new(
        spans.len(),
        |i: int|
            TimeSpan { start: (spans[i].start + delta) as i64, end: (spans[i].end + delta) as i64 },
    )
}

/// The distance between the shifts that a sweep tries.
pub open spec fn sweep_step(config: EngineConfig) -> int {
    if config.sweep_step_ms < 1 {
        1
    } else {
        config.sweep_step_ms as int
    }
}

/// How many shifts a sweep tries in each direction; none at all, not even no
/// shift, if this is negative.
pub open spec fn sweep_reach(config: EngineConfig) -> int {
    if config.max_drift_ms >= 0 {
        config.max_drift_ms as int / sweep_step(config)
    } else {
        -((-config.max_drift_ms) / sweep_step(config))
    }
}

/// The best of the first `n` shifts from `-reach` steps upward and its score:
/// the first of those with the highest score, starting from no shift with a
/// score below all others.
pub open spec fn best_shift(
    reference: Seq<TimeSpan>,
    list: Seq<TimeSpan>,
    step: int,
    reach: int,
    n: int,
) -> (i64, Binary64)
    decreases n,
{
    if n <= 0 {
        (0, Binary64 { bits: 0xfff0_0000_0000_0000 })
    } else {
        let best = best_shift(reference, list, step, reach, n - 1);
        let delta = (n - 1 - reach) * step;
        let score = nosplit_score(reference, shifted_spans(list, delta));
        if best.1.lt(score) {
            (delta as i64, score)
        } else {
            best
        }
    }
}

/// What a coarse sweep finds.
pub open spec fn swept(
    config: EngineConfig,
    reference: Seq<TimeSpan>,
    list: Seq<TimeSpan>,
) -> (i64, Binary64) {
    best_shift(
        reference,
        list,
        sweep_step(config),
        sweep_reach(config),
        2 * sweep_reach(config) + 1,
    )
}

/// Whether the settings lie within the limits of the engine.
pub open spec fn config_in_range(config: EngineConfig) -> bool {
    &&& -TIME_LIMIT_MS <= config.max_drift_ms <= TIME_LIMIT_MS
    &&& -TIME_LIMIT_MS <= config.coverage_buffer_ms <= TIME_LIMIT_MS
}

/// Whether all spans are in order and within the limits of the engine.
pub open spec fn spans_in_range(spans: Seq<TimeSpan>) -> bool {
    &&& spans.len() <= ALIGN_MAX_SPANS
    &&& forall|i: int|
        0 <= i < spans.len() ==> (#[trigger] spans[i]).ordered() && spans[i].within(
            TIME_LIMIT_MS as int,
        )
}

/// The indices of a window are in order and are those of lines.
pub proof fn lemma_window_indices(lines: Seq<(i64, i64)>, lo: int, hi: int, n: int)
    requires
        0 <= n <= lines.len(),
        lines.len() <= usize::MAX,
    ensures
        window_indices(lines, lo, hi, n).len() <= n,
        forall|i: int|
            0 <= i < window_indices(lines, lo, hi, n).len() ==> (#[trigger] window_indices(
                lines,
                lo,
                hi,
                n,
            )[i]) < n,
    decreases n,
{
    if n > 0 {
        lemma_window_indices(lines, lo, hi, n - 1);
    }
}

/// All spans moved by the same shift.
fn shift_spans(spans: &Vec<TimeSpan>, delta: i64) -> (shifted: Vec<TimeSpan>)
    requires
        spans_in_range(spans@),
        -TIME_LIMIT_MS <= delta <= TIME_LIMIT_MS,
    ensures
        shifted@ == shifted_spans(spans@, delta as int),
        alignable(shifted@),
{
    let mut shifted: Vec<TimeSpan> = Vec::with_capacity(spans.len());
    let mut i: usize = 0;
    while i < spans.len()
        invariant
            i <= spans@.len(),
            spans_in_range(spans@),
            -TIME_LIMIT_MS <= delta <= TIME_LIMIT_MS,
            shifted@ == shifted_spans(spans@, delta as int).take(i as int),
        decreases spans@.len() - i,
    {
        let s: TimeSpan = spans[i];
        shifted.push(TimeSpan::new(s.start + delta, s.end + delta));
        assert(shifted@ =~= shifted_spans(spans@, delta as int).take(i + 1));
        i = i + 1;
    }
    assert(shifted@ =~= shifted_spans(spans@, delta as int));
    assert forall|k: int| 0 <= k < shifted@.len() implies (#[trigger] shifted@[k]).ordered()
        && shifted@[k].within(ALIGN_LIMIT_MS as int) by {
        assert(spans@[k].ordered() && spans@[k].within(TIME_LIMIT_MS as int));
    }
    shifted
}

impl AlignmentEngine {
    /// Whether the anchors are in order and the subtitle is complete.
    pub open spec fn wf(&self) -> bool {
        &&& in_order(self.anchors@)
        &&& self.subtitle matches Some(sub) ==> sub.wf()
    }

    /// Whether all times lie within the limits of the engine.
    pub open spec fn in_range(&self) -> bool {
        &&& anchors_in_range(self.anchors@)
        &&& self.subtitle matches Some(sub) ==> sub.in_range()
    }

    pub fn new(config: EngineConfig) -> (r: Self)
        ensures
            r.wf(),
            r.in_range(),
            r.config == config,
            r.subtitle is None,
            r.anchors@.len() == 0,
            r.chunks@.len() == 0,
    {
        AlignmentEngine { config, subtitle: None, anchors: Vec::new(), chunks: Vec::new() }
    }

    pub fn set_config(&mut self, config: EngineConfig)
        ensures
            final(self).config == config,
            final(self).subtitle == old(self).subtitle,
            final(self).anchors == old(self).anchors,
            final(self).chunks == old(self).chunks,
    {
        self.config = config;
    }

    pub fn config(&self) -> (r: &EngineConfig)
        ensures
            *r == self.config,
    {
        &self.config
    }

    /// How far the subtitle is shifted at a place on the film.
    pub fn interpolate_delta_for(&self, original_ms: i64) -> (r: i64)
        requires
            self.wf(),
            differences_fit(self.anchors@),
        ensures
            r == shift_at(self.anchors@, original_ms as int),
    {
        truncated_delta(self.anchors.as_slice(), original_ms)
    }

    /// The confidence of the anchor nearest to a place on the film.
    pub fn nearest_anchor_confidence_for(&self, original_ms: i64) -> (r: Binary64)
        requires
            self.wf(),
            anchors_in_range(self.anchors@),
        ensures
            r == nearest_confidence(self.anchors@, original_ms as int),
    {
        confidence_at(&self.anchors, original_ms)
    }

    /// Recompute all corrected times via the warp function, diff against the
    /// previous state, return changes.
    pub fn recompute_all_and_diff(&mut self) -> (changes: Vec<LineChange>)
        requires
            old(self).wf(),
            old(self).in_range(),
        ensures
            final(self).wf(),
            final(self).in_range(),
            final(self).config == old(self).config,
            final(self).anchors == old(self).anchors,
            final(self).chunks == old(self).chunks,
            recomputed(old(self).subtitle, old(self).anchors@, final(self).subtitle, changes@),
            forall|k: int| 0 <= k < changes@.len() ==> tells_a_move(#[trigger] changes@[k]),
    {
        let mut taken: Option<SubtitleState> = None;
        std::mem::swap(&mut taken, &mut self.subtitle);
        match taken {
            Some(mut sub) => {
                let ghost before = sub;
                let changes: Vec<LineChange> = rewarp(&mut sub, &self.anchors);
                proof {
                    assert forall|k: int| 0 <= k < changes@.len() implies tells_a_move(
                        #[trigger] changes@[k],
                    ) by {
                        law_changes_tell_the_moves(before, self.anchors@, sub, changes@, k);
                    }
                }
                self.subtitle = Some(sub);
                changes
            },
            None => Vec::new(),
        }
    }

    /// The spans of the subtitle lines whose original timing overlaps
    /// `[range_start, range_end]`.
    pub fn subtitle_spans_in_range(&self, range_start: i64, range_end: i64) -> (spans: Vec<TimeSpan>)
        requires
            self.wf(),
            self.subtitle is Some,
        ensures
            spans@ == spans_at(
                self.subtitle->0.original_timespans@,
                window_indices(
                    self.subtitle->0.original_timespans@,
                    range_start as int,
                    range_end as int,
                    self.subtitle->0.original_timespans@.len() as int,
                ),
            ),
    {
        let (spans, _indices): (Vec<TimeSpan>, Vec<usize>) = self.subtitle_window_with_indices(
            range_start,
            range_end,
        );
        spans
    }

    /// Same as above but also returns the original line indices.
    pub fn subtitle_window_with_indices(&self, range_start: i64, range_end: i64) -> (r: (
        Vec<TimeSpan>,
        Vec<usize>,
    ))
        requires
            self.wf(),
            self.subtitle is Some,
        ensures
            r.1@ == window_indices(
                self.subtitle->0.original_timespans@,
                range_start as int,
                range_end as int,
                self.subtitle->0.original_timespans@.len() as int,
            ),
            r.0@ == spans_at(self.subtitle->0.original_timespans@, r.1@),
    {
        let mut spans: Vec<TimeSpan> = Vec::new();
        let mut indices: Vec<usize> = Vec::new();
        if let Some(sub) = &self.subtitle {
            let ghost lines = sub.original_timespans@;
            let n: usize = sub.original_timespans.len();
            let mut i: usize = 0;
            while i < n
                invariant
                    i <= n,
                    sub.wf(),
                    lines == sub.original_timespans@,
                    n == lines.len(),
                    indices@ == window_indices(
                        lines,
                        range_start as int,
                        range_end as int,
                        i as int,
                    ),
                    spans@ == spans_at(lines, indices@),
                decreases n - i,
            {
                let (start, end): (i64, i64) = sub.original_timespans[i];
                if end >= range_start && start <= range_end {
                    spans.push(TimeSpan::new(start, end));
                    indices.push(i);
                    assert(spans@ =~= spans_at(lines, indices@));
                }
                i = i + 1;
            }
        }
        (spans, indices)
    }

    /// Coarse sweep: evaluate the score without splits at discrete deltas.
    pub fn coarse_sweep(&self, vad_spans: &Vec<TimeSpan>, sub_spans: &Vec<TimeSpan>) -> (r: (
        i64,
        Binary64,
    ))
        requires
            alignable(vad_spans@),
            spans_in_range(sub_spans@),
            -TIME_LIMIT_MS <= self.config.max_drift_ms <= TIME_LIMIT_MS,
        ensures
            r == swept(self.config, vad_spans@, sub_spans@),
            -TIME_LIMIT_MS <= r.0 <= TIME_LIMIT_MS,
    {
        let max_d: i64 = self.config.max_drift_ms;
        let step: i64 = if self.config.sweep_step_ms < 1 { 1 } else { self.config.sweep_step_ms };
        let steps: i64 = if max_d >= 0 { max_d / step } else { -((-max_d) / step) };
        let mut best_delta: i64 = 0;
        let mut best_score: Binary64 = Binary64::from_bits(0xfff0_0000_0000_0000);
        let size: i64 = if max_d >= 0 { max_d } else { -max_d };
        assert(0 <= (size as int / step as int) * step <= size) by (nonlinear_arith)
            requires
                0 <= size,
                0 < step,
        ;
        assert(-TIME_LIMIT_MS <= steps <= TIME_LIMIT_MS) by (nonlinear_arith)
            requires
                steps == size as int / step as int || steps == -(size as int / step as int),
                0 <= size <= TIME_LIMIT_MS,
                0 < step,
        ;
        let mut i: i64 = -steps;
        while i <= steps
            invariant
                steps < 0 && i == -steps || -steps <= i <= steps + 1,
                -TIME_LIMIT_MS <= steps <= TIME_LIMIT_MS,
                steps == sweep_reach(self.config),
                step == sweep_step(self.config),
                0 < step,
                0 <= steps ==> steps * step <= TIME_LIMIT_MS,
                alignable(vad_spans@),
                spans_in_range(sub_spans@),
                (best_delta, best_score) == best_shift(
                    vad_spans@,
                    sub_spans@,
                    step as int,
                    steps as int,
                    i + steps,
                ),
                -TIME_LIMIT_MS <= best_delta <= TIME_LIMIT_MS,
            decreases steps + 1 - i,
        {
            assert(-(steps * step) <= i * step <= steps * step) by (nonlinear_arith)
                requires
                    -steps <= i <= steps,
                    0 < step,
            ;
            let delta: i64 = i * step;
            let shifted: Vec<TimeSpan> = shift_spans(sub_spans, delta);
            let score: Binary64 = score_without_splits(vad_spans, &shifted);
            if best_score.less_than(score) {
                best_score = score;
                best_delta = delta;
            }
            i = i + 1;
        }
        (best_delta, best_score)
    }
}

/// What recomputing the corrected times does.
pub open spec fn recomputed(
    before: Option<SubtitleState>,
    anchors: Seq<Anchor>,
    after: Option<SubtitleState>,
    changes: Seq<LineChange>,
) -> bool {
    match before {
        Some(sub) => {
            &&& after matches Some(warped) && is_rewarped(sub, anchors, warped)
            &&& changes == line_changes(sub, anchors, sub.original_timespans@.len() as int)
        },
        None => after is None && changes == Seq::<LineChange>::empty(),
    }
}

/// Whether the change of a shift is that of the times: it lies between the move
/// of the start and the move of the end, not both of which are zero.
pub open spec fn tells_a_move(c: LineChange) -> bool {
    let start_move = c.new_start_ms - c.old_start_ms;
    let end_move = c.new_end_ms - c.old_end_ms;
    &&& start_move != 0 || end_move != 0
    &&& start_move <= end_move ==> start_move <= c.delta_change_ms <= end_move
    &&& start_move >= end_move ==> start_move >= c.delta_change_ms >= end_move
}

/// The text of a time that may be negative.
pub open spec fn signed_timestamp(ms: i64) -> Seq<char> {
    if ms < 0 {
        "-"@ + timestamp((-ms) as nat)
    } else {
        timestamp(ms as nat)
    }
}

/// Format milliseconds as an SRT timestamp: HH:MM:SS,mmm. A negative time has
/// a minus sign in front.
pub fn format_srt_time(ms: i64) -> (s: String)
    ensures
        s@ == signed_timestamp(ms),
{
    let size: u64 = if ms < 0 { (-(ms as i128)) as u64 } else { ms as u64 };
    if ms < 0 {
        let mut s: String = "-".to_string();
        s.append(timestamp_text(size).as_str());
        s
    } else {
        timestamp_text(size)
    }
}

} // verus!
