//! What the engine has of a subtitle that was loaded, what it shows of itself,
//! and what it writes.

use crate::anchor::Anchor;
use crate::engine::{signed_timestamp, AlignmentEngine, ProcessedChunk, SubtitleState};
use crate::export::{
    corrected_entries, corrected_entry, corrected_subtitle, srt_block, srt_blocks,
};
use crate::ids::id_text;
use crate::proto::{AnchorInfo, ChunkInfo};
use crate::session::{
    line_text, line_times, named_format, shows_anchor, shows_chunk, FRAMES_PER_SECOND,
};
use crate::single::narrowed;
use crate::subtitle_file::{file_data, parsed_file, updated_file, EntryView, SubtitleFormat};
use crate::subtitle_laws::{is_block, lemma_block_signs};
use crate::text::{digits, ended, lossy_utf8};
use crate::text_laws::{all_digits, law_digits_read_back};
use vstd::prelude::*;

verus! {

/// Three names are known. One is that of SubRip, the other two are those of
/// SubStation Alpha.
pub proof fn law_three_names_are_known(name: Seq<char>)
    ensures
        named_format(name) == Some(SubtitleFormat::SubRip) <==> name == seq!['s', 'r', 't'],
        named_format(name) == Some(SubtitleFormat::SubStationAlpha) <==> name == seq!['a', 's', 's']
            || name == seq!['s', 's', 'a'],
        named_format(name) is Some ==> named_format(name) == Some(SubtitleFormat::SubRip)
            || named_format(name) == Some(SubtitleFormat::SubStationAlpha),
{
    reveal_strlit("srt");
    reveal_strlit("ass");
    reveal_strlit("ssa");
    assert("srt"@ =~= seq!['s', 'r', 't']);
    assert("ass"@ =~= seq!['a', 's', 's']);
    assert("ssa"@ =~= seq!['s', 's', 'a']);
    assert("srt"@[0] == 's' && "srt"@[1] == 'r');
    assert("ass"@[0] == 'a');
    assert("ssa"@[1] == 's');
}

/// Once a subtitle is loaded there are as many lines as it has entries. Each
/// goes from the earlier to the later time of its entry, is where it was, and
/// has the text of the entry, or none. All that was aligned before is gone.
pub proof fn law_loaded_lines_are_those_of_the_entries(
    before: AlignmentEngine,
    format: Seq<char>,
    content: Seq<u8>,
    entries: Seq<EntryView>,
    after: AlignmentEngine,
    i: int,
)
    requires
        before.is_loaded_with(format, content, entries, &after),
        0 <= i < entries.len(),
    ensures
        after.anchors@.len() == 0,
        after.chunks@.len() == 0,
        after.config == before.config,
        after.subtitle matches Some(sub) && {
            let (start, end) = sub.original_timespans@[i];
            &&& sub.original_timespans@.len() == entries.len()
            &&& sub.corrected_start_ms@.len() == entries.len()
            &&& sub.corrected_end_ms@.len() == entries.len()
            &&& sub.line_texts@.len() == entries.len()
            &&& start <= end
            &&& start == entries[i].start_ms && end == entries[i].end_ms || start
                == entries[i].end_ms && end == entries[i].start_ms
            &&& sub.corrected_start_ms@[i] == start
            &&& sub.corrected_end_ms@[i] == end
            &&& entries[i].line matches Some(text) ==> sub.line_texts@[i]@ == text
            &&& entries[i].line is None ==> sub.line_texts@[i]@.len() == 0
            &&& sub.format_str@ == format
            &&& sub.raw_content@ == content
        },
{
    let sub = after.subtitle->0;
    assert(sub.original_timespans@[i] == line_times(entries[i]));
    assert(sub.line_texts@[i]@ == line_text(entries[i]));
    assert(sub.corrected_start_ms@[i] == sub.original_timespans@[i].0);
    assert(sub.corrected_end_ms@[i] == sub.original_timespans@[i].1);
}

/// In an engine that has aligned nothing, or has been reset, there are no
/// anchors and no chunks, and every line is where it was at first.
pub proof fn law_unaligned_lines_are_original(engine: AlignmentEngine, i: int)
    requires
        engine.is_unaligned(),
    ensures
        engine.anchors@.len() == 0,
        engine.chunks@.len() == 0,
        engine.subtitle matches Some(sub) ==> 0 <= i < sub.original_timespans@.len() ==> {
            &&& sub.corrected_start_ms@[i] == sub.original_timespans@[i].0
            &&& sub.corrected_end_ms@[i] == sub.original_timespans@[i].1
        },
{
}

/// What the engine shows of an anchor is what it has of it.
pub proof fn law_anchors_are_shown_as_they_are(info: AnchorInfo, a: Anchor)
    requires
        shows_anchor(info, a),
    ensures
        info.film_position_ms == a.film_position_ms,
        info.delta_ms == a.delta_ms,
        info.confidence == narrowed(a.confidence),
        a.line_start <= i32::MAX ==> info.line_start == a.line_start,
        a.line_end <= i32::MAX ==> info.line_end == a.line_end,
        info.id@ == id_text(a.id),
        info.chunk_id@ == id_text(a.chunk_id),
{
}

/// What the engine shows of a chunk is what it has of it, with the anchors in
/// the same order.
pub proof fn law_chunks_are_shown_as_they_are(info: ChunkInfo, c: ProcessedChunk, i: int)
    requires
        shows_chunk(info, c),
    ensures
        info.film_start_ms == c.film_start_ms,
        info.film_end_ms == c.film_end_ms,
        info.id@ == id_text(c.id),
        info.anchor_ids@.len() == c.anchor_ids@.len(),
        0 <= i < c.anchor_ids@.len() ==> info.anchor_ids@[i]@ == id_text(c.anchor_ids@[i]),
{
}

/// A subtitle is written only in a format whose name is known, under that
/// name, and only if its own is known too. One that is not SubRip is written
/// as SubRip block by block; all else goes by way of its content, which is read
/// in the target format, and there is nothing where that cannot be read or its
/// entries cannot be replaced.
pub proof fn law_subtitles_are_written_under_the_name(sub: SubtitleState, target: Seq<char>)
    ensures
        named_format(target) is None || named_format(sub.format_str@) is None
            ==> corrected_subtitle(sub, target) is None,
        corrected_subtitle(sub, target) matches Some(written) ==> written.1 == target,
        named_format(sub.format_str@) == Some(SubtitleFormat::SubStationAlpha) && named_format(
            target,
        ) == Some(SubtitleFormat::SubRip) ==> (corrected_subtitle(sub, target) matches Some(written)
            && written.0 == srt_blocks(sub, sub.original_timespans@.len() as int)),
        named_format(sub.format_str@) is Some && named_format(target) is Some && !(named_format(
            sub.format_str@,
        ) == Some(SubtitleFormat::SubStationAlpha) && named_format(target) == Some(
            SubtitleFormat::SubRip,
        )) ==> match parsed_file(
            named_format(target)->0,
            sub.raw_content@,
            FRAMES_PER_SECOND,
        ) {
            Ok(file) => match updated_file(file, corrected_entries(sub)) {
                Ok(corrected) => corrected_subtitle(sub, target) matches Some(written) && written.0
                    == lossy_utf8(file_data(corrected)),
                Err(_) => corrected_subtitle(sub, target) is None,
            },
            Err(_) => corrected_subtitle(sub, target) is None,
        },
{
    law_three_names_are_known(target);
    law_three_names_are_known(sub.format_str@);
    reveal_strlit("srt");
    reveal_strlit("ass");
    reveal_strlit("ssa");
    assert("srt"@ =~= seq!['s', 'r', 't']);
}

/// What is written of a line by way of its own file are its corrected times
/// and its text.
pub proof fn law_written_entries_are_corrected(sub: SubtitleState, i: int)
    requires
        0 <= i < sub.original_timespans@.len(),
    ensures
        corrected_entries(sub).len() == sub.original_timespans@.len(),
        corrected_entries(sub)[i].start_ms == sub.corrected_start_ms@[i],
        corrected_entries(sub)[i].end_ms == sub.corrected_end_ms@[i],
        corrected_entries(sub)[i].line matches Some(text) && text == sub.line_texts@[i]@,
{
    assert(corrected_entries(sub)[i] == corrected_entry(sub, i));
}

/// SubRip text has one block after the other, with nothing before, between or
/// behind them. That of a line gives its number, from one on, its corrected
/// times, and its text, ended by a line feed; an empty line follows.
pub proof fn law_text_has_a_block_for_each_line(sub: SubtitleState, n: int, i: int) -> (place: (
    int,
    int,
))
    requires
        0 <= i < n <= sub.original_timespans@.len(),
    ensures
        ({
            let text = srt_blocks(sub, n);
            let (from, to) = place;
            &&& 0 <= from <= to <= text.len()
            &&& is_block(
                text.subrange(from, to),
                i + 1,
                signed_timestamp(sub.corrected_start_ms@[i]),
                signed_timestamp(sub.corrected_end_ms@[i]),
                ended(sub.line_texts@[i]@),
            )
            &&& from == srt_blocks(sub, i).len()
            &&& to == srt_blocks(sub, i + 1).len()
            &&& srt_blocks(sub, 0).len() == 0
        }),
    decreases n,
{
    let text = srt_blocks(sub, n);
    let earlier = srt_blocks(sub, n - 1);
    if i == n - 1 {
        let block = srt_block(sub, i);
        assert(text.subrange(earlier.len() as int, text.len() as int) =~= block);
        lemma_block_signs();
        law_digits_read_back((i + 1) as nat);
        assert(all_digits(digits((i + 1) as nat)));
        (earlier.len() as int, text.len() as int)
    } else {
        let (from, to) = law_text_has_a_block_for_each_line(sub, n - 1, i);
        assert(text.subrange(from, to) =~= earlier.subrange(from, to));
        (from, to)
    }
}

} // verus!
