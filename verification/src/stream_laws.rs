//! What holds of the streaming aligner over several calls.

use crate::alignment::alignment;
use crate::stream::{
    delta_change, delta_changes, deltas_fit, entry_span, entry_spans, is_corrected,
    shifted_entries, shifted_entry, text_of_bytes, CorrectedLine, Error, LineChange,
    StreamingAligner, FRAMES_PER_SECOND,
};
use crate::subtitle_file::{
    entry_numbers, file_data, file_entries, is_data_of, subrip_text, updated_file, EntryView,
    SubtitleFormat,
};
use crate::time_span::{covers, is_merged, law_merged_list_is_unique, TimeSpan};
use vstd::prelude::*;
use vstd::utf8::{decode_utf8_encode_utf8, encode_utf8, valid_utf8};

verus! {

/// The changes tell of every line whose delta moved and of no other, in the
/// order of the lines, and each tells by how much: both times of a line move
/// by the change of its delta, which is never zero.
pub proof fn law_changes_reflect_movement(
    spans: Seq<TimeSpan>,
    old_deltas: Seq<i64>,
    new_deltas: Seq<i64>,
    n: int,
)
    requires
        0 <= n <= spans.len(),
        spans.len() <= usize::MAX,
        deltas_fit(spans, old_deltas),
        deltas_fit(spans, new_deltas),
    ensures
        ({
            let changes = delta_changes(spans, old_deltas, new_deltas, n);
            &&& forall|k: int|
                0 <= k < changes.len() ==> tells_movement(
                    #[trigger] changes[k],
                    spans,
                    old_deltas,
                    new_deltas,
                ) && changes[k].line_index < n
            &&& forall|j: int, k: int|
                0 <= j < k < changes.len() ==> (#[trigger] changes[j]).line_index < (
                #[trigger] changes[k]).line_index
            &&& forall|i: int|
                0 <= i < n && #[trigger] old_deltas[i] != new_deltas[i] ==> exists|k: int|
                    0 <= k < changes.len() && (#[trigger] changes[k]).line_index == i
        }),
    decreases n,
{
    if n > 0 {
        law_changes_reflect_movement(spans, old_deltas, new_deltas, n - 1);
        let earlier = delta_changes(spans, old_deltas, new_deltas, n - 1);
        let changes = delta_changes(spans, old_deltas, new_deltas, n);
        if new_deltas[n - 1] != old_deltas[n - 1] {
            let last = delta_change(n - 1, spans[n - 1], old_deltas[n - 1], new_deltas[n - 1]);
            assert(tells_movement(last, spans, old_deltas, new_deltas));
            assert(changes[earlier.len() as int].line_index == n - 1);
        }
        assert forall|k: int| 0 <= k < changes.len() implies tells_movement(
            #[trigger] changes[k],
            spans,
            old_deltas,
            new_deltas,
        ) && changes[k].line_index < n by {
            if k < earlier.len() {
                assert(changes[k] == earlier[k]);
            }
        }
        assert forall|j: int, k: int| 0 <= j < k < changes.len() implies (
        #[trigger] changes[j]).line_index < (#[trigger] changes[k]).line_index by {
            assert(changes[j] == earlier[j]);
            if k < earlier.len() {
                assert(changes[k] == earlier[k]);
            }
        }
        assert forall|i: int|
            0 <= i < n && #[trigger] old_deltas[i] != new_deltas[i] implies exists|k: int|
            0 <= k < changes.len() && (#[trigger] changes[k]).line_index == i by {
            if i < n - 1 {
                let k = choose|k: int|
                    0 <= k < earlier.len() && (#[trigger] earlier[k]).line_index == i;
                assert(changes[k] == earlier[k]);
            }
        }
    }
}

/// Whether a change tells how a line moved from one delta to another.
pub open spec fn tells_movement(
    c: LineChange,
    spans: Seq<TimeSpan>,
    old_deltas: Seq<i64>,
    new_deltas: Seq<i64>,
) -> bool {
    let i = c.line_index as int;
    &&& c.old_start_ms == spans[i].start + old_deltas[i]
    &&& c.old_end_ms == spans[i].end + old_deltas[i]
    &&& c.new_start_ms == spans[i].start + new_deltas[i]
    &&& c.new_end_ms == spans[i].end + new_deltas[i]
    &&& c.delta_change_ms == new_deltas[i] - old_deltas[i]
    &&& c.delta_change_ms != 0
}

/// Where no delta moved there are no changes.
pub proof fn law_no_movement_no_changes(spans: Seq<TimeSpan>, deltas: Seq<i64>, n: int)
    ensures
        delta_changes(spans, deltas, deltas, n).len() == 0,
    decreases n,
{
    if n > 0 {
        law_no_movement_no_changes(spans, deltas, n - 1);
    }
}

/// Whether the deltas are those of an alignment to all evidence by the present
/// configuration, or there is nothing to align.
pub open spec fn is_settled(a: StreamingAligner) -> bool {
    a.has_work(a.vad@) ==> a.current_deltas@ == alignment(
        a.vad@,
        a.loaded->0.original_spans@,
        a.config.split_penalty,
        a.config.speed_optimization,
    ).0
}

/// Every ingest leaves the aligner settled.
pub proof fn law_ingest_settles(
    before: StreamingAligner,
    spans: Seq<TimeSpan>,
    after: StreamingAligner,
    changes: Seq<LineChange>,
)
    requires
        before.ingests(spans, &after, changes),
    ensures
        is_settled(after),
{
}

/// Evidence that is known already, or none at all, changes nothing.
pub proof fn law_known_evidence_changes_nothing(
    before: StreamingAligner,
    spans: Seq<TimeSpan>,
    after: StreamingAligner,
    changes: Seq<LineChange>,
)
    requires
        before.wf(),
        is_settled(before),
        forall|t: int| covers(spans, t) ==> covers(before.vad@, t),
        before.ingests(spans, &after, changes),
    ensures
        after.vad@ == before.vad@,
        after.current_deltas@ == before.current_deltas@,
        after.loaded == before.loaded,
        after.config == before.config,
        changes.len() == 0,
{
    law_merged_list_is_unique(after.vad@, before.vad@);
    if before.has_work(before.vad@) {
        let lines = before.loaded->0.original_spans@;
        law_no_movement_no_changes(lines, before.current_deltas@, lines.len() as int);
    }
}

/// It does not matter in which order evidence comes: the same evidence leads
/// to the same alignment.
pub proof fn law_order_of_evidence_is_irrelevant(
    start: StreamingAligner,
    x: Seq<TimeSpan>,
    y: Seq<TimeSpan>,
    after_x: StreamingAligner,
    after_xy: StreamingAligner,
    after_y: StreamingAligner,
    after_yx: StreamingAligner,
    x_changes: Seq<LineChange>,
    xy_changes: Seq<LineChange>,
    y_changes: Seq<LineChange>,
    yx_changes: Seq<LineChange>,
)
    requires
        start.wf(),
        start.ingests(x, &after_x, x_changes),
        after_x.ingests(y, &after_xy, xy_changes),
        start.ingests(y, &after_y, y_changes),
        after_y.ingests(x, &after_yx, yx_changes),
    ensures
        after_xy.vad@ == after_yx.vad@,
        after_xy.current_deltas@ == after_yx.current_deltas@,
        after_xy.loaded == after_yx.loaded,
        after_xy.config == after_yx.config,
{
    law_merged_list_is_unique(after_xy.vad@, after_yx.vad@);
    if start.loaded is Some && start.loaded->0.original_spans@.len() > 0 {
        if after_xy.vad@.len() == 0 {
            lemma_no_evidence_before(after_x, after_xy);
            lemma_no_evidence_before(after_y, after_yx);
        }
    }
}

/// If there is no evidence after an ingest, there was none before.
proof fn lemma_no_evidence_before(before: StreamingAligner, after: StreamingAligner)
    requires
        is_merged(before.vad@),
        forall|t: int| covers(before.vad@, t) ==> covers(after.vad@, t),
        after.vad@.len() == 0,
    ensures
        before.vad@.len() == 0,
{
    if before.vad@.len() > 0 {
        let s = before.vad@[0];
        assert(s.holds(s.start as int));
        assert(covers(before.vad@, s.start as int));
        assert(covers(after.vad@, s.start as int));
    }
}

/// After a reset an ingest does what it does on the subtitle freshly loaded.
pub proof fn law_reset_starts_from_scratch(
    reset: StreamingAligner,
    fresh: StreamingAligner,
    spans: Seq<TimeSpan>,
    after_reset: StreamingAligner,
    after_fresh: StreamingAligner,
    reset_changes: Seq<LineChange>,
    fresh_changes: Seq<LineChange>,
)
    requires
        reset.is_fresh(),
        fresh.is_fresh(),
        reset.loaded == fresh.loaded,
        reset.config == fresh.config,
        reset.ingests(spans, &after_reset, reset_changes),
        fresh.ingests(spans, &after_fresh, fresh_changes),
    ensures
        after_reset.vad@ == after_fresh.vad@,
        after_reset.current_deltas@ == after_fresh.current_deltas@,
        reset_changes == fresh_changes,
{
    assert(reset.vad@ =~= fresh.vad@);
    law_merged_list_is_unique(after_reset.vad@, after_fresh.vad@);
}

/// On a subtitle that is freshly loaded or reset, every line has its original
/// times.
pub proof fn law_fresh_lines_are_original(
    a: StreamingAligner,
    line: CorrectedLine,
    i: int,
    entry: EntryView,
)
    requires
        a.wf(),
        a.is_fresh(),
        0 <= i < a.current_deltas@.len(),
        is_corrected(line, i, entry, a.current_deltas@[i]),
    ensures
        line.start_ms == line.original_start_ms,
        line.end_ms == line.original_end_ms,
        line.delta_ms == 0,
{
}

/// The span of an entry goes from the earlier of its times to the later, and
/// an entry that is moved goes from the one to the other, both moved by the
/// delta, and keeps its text.
pub proof fn law_moved_entries_keep_their_length(
    entries: Seq<EntryView>,
    deltas: Seq<i64>,
    i: int,
)
    requires
        deltas_fit(entry_spans(entries), deltas),
        0 <= i < entries.len(),
    ensures
        ({
            let (entry, span, moved) = (
                entries[i],
                entry_spans(entries)[i],
                shifted_entries(entries, deltas)[i],
            );
            &&& entry_spans(entries).len() == entries.len()
            &&& shifted_entries(entries, deltas).len() == entries.len()
            &&& span.start <= span.end
            &&& span.start == entry.start_ms && span.end == entry.end_ms || span.start
                == entry.end_ms && span.end == entry.start_ms
            &&& moved.start_ms - span.start == deltas[i]
            &&& moved.end_ms - span.end == deltas[i]
            &&& moved.end_ms - moved.start_ms == span.end - span.start
            &&& moved.line == entry.line
        }),
{
    assert(entry_spans(entries)[i] == entry_span(entries[i]));
    assert(shifted_entries(entries, deltas)[i] == shifted_entry(entries[i], deltas[i]));
}

/// A corrected line is as long as the original one, and both its times have
/// moved by its delta. The original goes from the earlier time of the entry to
/// the later.
pub proof fn law_corrected_lines_keep_their_length(
    line: CorrectedLine,
    i: int,
    entry: EntryView,
    delta: i64,
)
    requires
        is_corrected(line, i, entry, delta),
    ensures
        line.index == i,
        line.delta_ms == delta,
        line.start_ms - line.original_start_ms == delta,
        line.end_ms - line.original_end_ms == delta,
        line.original_start_ms <= line.original_end_ms,
        line.original_start_ms == entry.start_ms && line.original_end_ms == entry.end_ms
            || line.original_start_ms == entry.end_ms && line.original_end_ms == entry.start_ms,
        line.text is Some == entry.line is Some,
        line.text matches Some(text) ==> text@ == entry.line->0,
{
}

/// An ingest tells of every line that it moved and of no other, in the order
/// of the lines, and by how much: from where the line was before to where it
/// is now. Lines move only where there is speech to align them to.
pub proof fn law_ingest_tells_what_moved(
    before: StreamingAligner,
    spans: Seq<TimeSpan>,
    after: StreamingAligner,
    changes: Seq<LineChange>,
    i: int,
)
    requires
        before.wf(),
        after.wf(),
        before.ingests(spans, &after, changes),
        before.loaded is Some,
        before.loaded->0.original_spans@.len() <= usize::MAX,
        0 <= i < before.loaded->0.original_spans@.len(),
    ensures
        ({
            let line = before.loaded->0.original_spans@[i];
            let (old_delta, new_delta) = (before.current_deltas@[i], after.current_deltas@[i]);
            &&& after.loaded == before.loaded
            &&& after.config == before.config
            &&& forall|j: int, k: int|
                0 <= j < k < changes.len() ==> (#[trigger] changes[j]).line_index < (
                #[trigger] changes[k]).line_index
            &&& old_delta != new_delta ==> after.vad@.len() > 0 && exists|k: int|
                0 <= k < changes.len() && (#[trigger] changes[k]).line_index == i
            &&& forall|k: int|
                0 <= k < changes.len() && (#[trigger] changes[k]).line_index == i ==> {
                    &&& old_delta != new_delta
                    &&& changes[k].old_start_ms == line.start + old_delta
                    &&& changes[k].old_end_ms == line.end + old_delta
                    &&& changes[k].new_start_ms == line.start + new_delta
                    &&& changes[k].new_end_ms == line.end + new_delta
                    &&& changes[k].delta_change_ms == new_delta - old_delta
                }
        }),
{
    let lines = before.loaded->0.original_spans@;
    if before.has_work(after.vad@) {
        law_changes_reflect_movement(
            lines,
            before.current_deltas@,
            after.current_deltas@,
            lines.len() as int,
        );
        assert(changes == delta_changes(
            lines,
            before.current_deltas@,
            after.current_deltas@,
            lines.len() as int,
        ));
    }
}

/// What loading does: a file that could be parsed is there afterwards, with
/// as many lines as it has entries, all where they were, and with no evidence.
/// Otherwise the reason is told and all stays as it was.
pub proof fn law_loading_starts_afresh(
    before: StreamingAligner,
    parsed: Result<subparse::SubtitleFile, Seq<char>>,
    format: SubtitleFormat,
    after: StreamingAligner,
    r: Result<usize, Error>,
    i: int,
)
    requires
        before.loads(parsed, format, &after, r),
    ensures
        r is Ok <==> parsed is Ok,
        parsed matches Err(reason) ==> after == before && (r matches Err(Error::Parse(told))
            && told@ == reason),
        parsed matches Ok(file) ==> {
            let n = file_entries(file).len();
            &&& r == Ok::<usize, Error>(n as usize)
            &&& after.loaded matches Some(loaded) && loaded.file == file && loaded.format == format
                && loaded.original_spans@.len() == n
            &&& after.config == before.config
            &&& after.vad@.len() == 0
            &&& after.current_deltas@.len() == n
            &&& 0 <= i < n ==> after.current_deltas@[i] == 0
        },
{
}

/// After an ingest there is evidence for a moment exactly where there was some
/// before or new evidence came, in spans that are in order and apart. Where
/// there is any, and a subtitle with lines is loaded, the deltas are those of
/// an alignment of all lines to all of it; otherwise they stay.
pub proof fn law_ingest_aligns_to_all_evidence(
    before: StreamingAligner,
    spans: Seq<TimeSpan>,
    after: StreamingAligner,
    changes: Seq<LineChange>,
    t: int,
    i: int,
    j: int,
)
    requires
        before.ingests(spans, &after, changes),
    ensures
        (exists|k: int|
            0 <= k < after.vad@.len() && (#[trigger] after.vad@[k]).start <= t < after.vad@[k].end)
            <==> {
            ||| exists|k: int|
                0 <= k < before.vad@.len() && (#[trigger] before.vad@[k]).start <= t
                    < before.vad@[k].end
            ||| exists|k: int|
                0 <= k < spans.len() && (#[trigger] spans[k]).start <= t < spans[k].end
        },
        0 <= i < after.vad@.len() ==> after.vad@[i].start < after.vad@[i].end,
        0 <= i < j < after.vad@.len() ==> after.vad@[i].end < after.vad@[j].start,
        after.config == before.config,
        after.loaded == before.loaded,
        before.loaded matches Some(loaded) ==> after.vad@.len() > 0 && loaded.original_spans@.len()
            > 0 ==> after.current_deltas@ == alignment(
            after.vad@,
            loaded.original_spans@,
            before.config.split_penalty,
            before.config.speed_optimization,
        ).0,
        before.loaded is None || after.vad@.len() == 0 || before.loaded->0.original_spans@.len()
            == 0 ==> after.current_deltas@ == before.current_deltas@ && changes.len() == 0,
{
    assert(covers(after.vad@, t) <==> covers(before.vad@, t) || covers(spans, t));
    lemma_covers(after.vad@, t);
    lemma_covers(before.vad@, t);
    lemma_covers(spans, t);
}

/// What it is to be covered.
proof fn lemma_covers(spans: Seq<TimeSpan>, t: int)
    ensures
        covers(spans, t) <==> exists|k: int|
            0 <= k < spans.len() && (#[trigger] spans[k]).start <= t < spans[k].end,
{
    if covers(spans, t) {
        let k = choose|k: int| 0 <= k < spans.len() && (#[trigger] spans[k]).holds(t);
        assert(spans[k].start <= t < spans[k].end);
    }
    if exists|k: int| 0 <= k < spans.len() && (#[trigger] spans[k]).start <= t < spans[k].end {
        let k = choose|k: int|
            0 <= k < spans.len() && (#[trigger] spans[k]).start <= t < spans[k].end;
        assert(spans[k].holds(t));
    }
}

/// What is exported is the loaded file with every entry moved by its delta and
/// its text kept, as bytes that are UTF-8. Nothing is exported where no file is
/// loaded or it cannot be changed.
pub proof fn law_export_writes_moved_entries(
    a: StreamingAligner,
    r: Option<Seq<u8>>,
    moved: Seq<EntryView>,
)
    requires
        a.wf(),
        a.may_export(r),
        a.loaded matches Some(loaded) ==> {
            let entries = file_entries(loaded.file);
            &&& moved.len() == entries.len()
            &&& forall|i: int|
                0 <= i < moved.len() ==> {
                    let (from, to) = if entries[i].start_ms <= entries[i].end_ms {
                        (entries[i].start_ms, entries[i].end_ms)
                    } else {
                        (entries[i].end_ms, entries[i].start_ms)
                    };
                    &&& (#[trigger] moved[i]).start_ms == from + a.current_deltas@[i]
                    &&& moved[i].end_ms == to + a.current_deltas@[i]
                    &&& moved[i].line == entries[i].line
                }
        },
    ensures
        a.loaded is None ==> r is None,
        a.loaded matches Some(loaded) ==> match updated_file(loaded.file, moved) {
            Err(_) => r is None,
            Ok(file) => r matches Some(data) && is_data_of(file, data) && valid_utf8(data) && (!(
            loaded.format is MicroDVD) ==> data == file_data(file)) && (loaded.format is SubRip
                ==> data == encode_utf8(subrip_text(entry_numbers(loaded.file), moved))),
        },
{
    if let Some(loaded) = a.loaded {
        let entries = file_entries(loaded.file);
        let shifted = shifted_entries(entries, a.current_deltas@);
        assert forall|i: int| 0 <= i < moved.len() implies #[trigger] moved[i] == shifted[i] by {
            law_moved_entries_keep_their_length(entries, a.current_deltas@, i);
        }
        assert(moved =~= shifted);
    }
}

/// Exported bytes stand for the text of which they are the UTF-8, and for none
/// where there is no such text or nothing is exported.
pub proof fn law_exported_bytes_are_those_of_the_text(r: Option<Seq<u8>>)
    ensures
        text_of_bytes(r) is Some <==> r is Some && valid_utf8(r->0),
        text_of_bytes(r) matches Some(text) ==> encode_utf8(text) == r->0,
{
    if let Some(data) = r {
        if valid_utf8(data) {
            decode_utf8_encode_utf8(data);
        }
    }
}

/// A frame of a file that counts in frames lasts forty milliseconds.
pub proof fn law_frames_last_forty_ms(frames: nat)
    ensures
        1000 * frames == FRAMES_PER_SECOND * (40 * frames),
{
    vstd::arithmetic::mul::lemma_mul_is_associative(25, 40, frames as int);
}

} // verus!
