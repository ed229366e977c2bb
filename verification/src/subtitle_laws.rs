//! What a parsed subtitle tells of its lines, and what is written of them.

use crate::session::named_format;
use crate::subtitle::{
    corrected_entries, corrected_entry, exported_text, format_name, fresh_line, fresh_lines,
    not_before_zero, restored_line, srt_block, srt_blocks, SubtitleLine, SubtitleState,
};
use crate::subtitle_file::{detected_format, file_entries, EntryView, SubtitleFormat};
use crate::text::{digits, ended, timestamp};
use crate::text_laws::{all_digits, law_digits_read_back, number_in};
use vstd::prelude::*;
use vstd::utf8::{decode_utf8_encode_utf8, encode_utf8, valid_utf8};

verus! {

/// The lines of a file are those of its entries, in order, and none of them
/// has been moved.
pub proof fn law_fresh_lines_have_the_times_of_their_entries(entries: Seq<EntryView>, i: int)
    requires
        0 <= i < entries.len(),
    ensures
        fresh_lines(entries).len() == entries.len(),
        fresh_lines(entries)[i].original_start_ms == entries[i].start_ms,
        fresh_lines(entries)[i].original_end_ms == entries[i].end_ms,
        fresh_lines(entries)[i].corrected_start_ms == entries[i].start_ms,
        fresh_lines(entries)[i].corrected_end_ms == entries[i].end_ms,
{
}

/// A line whose corrections are taken back is where it was at first, whatever
/// was done to it in between.
pub proof fn law_restored_lines_are_fresh(entry: EntryView, line: SubtitleLine)
    requires
        line.original_start_ms == entry.start_ms,
        line.original_end_ms == entry.end_ms,
    ensures
        restored_line(line) == fresh_line(entry),
        restored_line(line).corrected_start_ms == line.original_start_ms,
        restored_line(line).corrected_end_ms == line.original_end_ms,
        restored_line(line).original_start_ms == line.original_start_ms,
        restored_line(line).original_end_ms == line.original_end_ms,
{
}

/// What is written of a line are its corrected times, those before zero as
/// zero, and nothing in place of its text.
pub proof fn law_written_times_are_corrected(lines: Seq<SubtitleLine>, i: int)
    requires
        0 <= i < lines.len(),
    ensures
        ({
            let (line, entry) = (lines[i], corrected_entries(lines)[i]);
            &&& corrected_entries(lines).len() == lines.len()
            &&& entry.start_ms >= 0 && entry.end_ms >= 0
            &&& line.corrected_start_ms >= 0 ==> entry.start_ms == line.corrected_start_ms
            &&& line.corrected_start_ms < 0 ==> entry.start_ms == 0
            &&& line.corrected_end_ms >= 0 ==> entry.end_ms == line.corrected_end_ms
            &&& line.corrected_end_ms < 0 ==> entry.end_ms == 0
            &&& entry.line is None
            &&& not_before_zero(line.corrected_start_ms) == entry.start_ms
            &&& not_before_zero(line.corrected_end_ms) == entry.end_ms
        }),
{
    assert(corrected_entries(lines)[i] == corrected_entry(lines[i]));
}

/// Whether a block of SubRip text gives the number `n`, two times and a body.
pub open spec fn is_block(
    block: Seq<char>,
    n: int,
    from: Seq<char>,
    to: Seq<char>,
    body: Seq<char>,
) -> bool {
    exists|number: Seq<char>|
        {
            &&& #[trigger] all_digits(number)
            &&& number.len() > 0
            &&& number[0] != '0'
            &&& number_in(number) == n
            &&& block == number + seq!['\n'] + from + seq![' ', '-', '-', '>', ' '] + to + seq![
                '\n',
            ] + body + seq!['\n']
        }
}

/// The line breaks and the arrow of a block.
pub(crate) proof fn lemma_block_signs()
    ensures
        "\n"@ == seq!['\n'],
        " --> "@ == seq![' ', '-', '-', '>', ' '],
{
    reveal_strlit("\n");
    reveal_strlit(" --> ");
    assert("\n"@ =~= seq!['\n']);
    assert(" --> "@ =~= seq![' ', '-', '-', '>', ' ']);
}

/// An exported subtitle has one block after the other, with nothing before,
/// between or behind them. That of a line gives its number, from one on, its
/// corrected times, those before zero as zero, and its text, ended by a line
/// feed, or nothing where it has none; an empty line follows.
pub proof fn law_export_has_a_block_for_each_line(
    lines: Seq<SubtitleLine>,
    entries: Seq<EntryView>,
    n: int,
    i: int,
) -> (place: (int, int))
    requires
        0 <= i < n <= lines.len(),
        n <= entries.len(),
    ensures
        ({
            let text = srt_blocks(lines, entries, n);
            let (from, to) = place;
            let start: int = if lines[i].corrected_start_ms < 0 {
                0
            } else {
                lines[i].corrected_start_ms as int
            };
            let end: int = if lines[i].corrected_end_ms < 0 {
                0
            } else {
                lines[i].corrected_end_ms as int
            };
            let body = if entries[i].line is Some {
                ended(entries[i].line->0)
            } else {
                Seq::empty()
            };
            &&& 0 <= from <= to <= text.len()
            &&& is_block(
                text.subrange(from, to),
                i + 1,
                timestamp(start as nat),
                timestamp(end as nat),
                body,
            )
            &&& from == srt_blocks(lines, entries, i).len()
            &&& to == srt_blocks(lines, entries, i + 1).len()
            &&& srt_blocks(lines, entries, 0).len() == 0
        }),
    decreases n,
{
    let text = srt_blocks(lines, entries, n);
    let earlier = srt_blocks(lines, entries, n - 1);
    if i == n - 1 {
        let block = srt_block(i, lines[i], entries[i].line);
        assert(text.subrange(earlier.len() as int, text.len() as int) =~= block);
        lemma_block_signs();
        law_digits_read_back((i + 1) as nat);
        assert(all_digits(digits((i + 1) as nat)));
        (earlier.len() as int, text.len() as int)
    } else {
        let (from, to) = law_export_has_a_block_for_each_line(lines, entries, n - 1, i);
        assert(text.subrange(from, to) =~= earlier.subrange(from, to));
        (from, to)
    }
}

/// A format that has a name of its own is remembered under a name by which it
/// is found again; any other under the name that was given.
pub proof fn law_formats_are_found_by_their_names(
    format: SubtitleFormat,
    hint: Seq<char>,
    bytes: Seq<u8>,
)
    ensures
        format is SubRip || format is SubStationAlpha ==> named_format(format_name(format, hint))
            == Some(format) && detected_format(Some(format_name(format, hint)), bytes) == Some(
            format,
        ),
        !(format is SubRip || format is SubStationAlpha) ==> format_name(format, hint) == hint,
        format is SubStationAlpha ==> format_name(format, hint) == seq!['a', 's', 's'],
        named_format(hint) is Some ==> detected_format(Some(hint), bytes) == named_format(hint),
{
    reveal_strlit("srt");
    reveal_strlit("ass");
    reveal_strlit("ssa");
    assert("ass"@ =~= seq!['a', 's', 's']);
    assert("srt"@[0] != "ass"@[0]);
    assert("srt"@[1] != "ssa"@[1]);
}

/// Written bytes stand for the text of which they are the UTF-8, and for none
/// where there is no such text.
pub proof fn law_exported_text_is_that_of_the_bytes(data: Seq<u8>)
    ensures
        exported_text(data) is Ok <==> valid_utf8(data),
        exported_text(data) matches Ok(text) ==> encode_utf8(text) == data,
{
    if valid_utf8(data) {
        decode_utf8_encode_utf8(data);
    }
}

/// The entries of a corrected file have the texts of the backing file and the
/// corrected times, those before zero as zero.
pub proof fn law_corrected_files_keep_their_texts(state: SubtitleState, i: int)
    requires
        0 <= i < state.lines@.len(),
    ensures
        ({
            let entry = state.corrected_file_entries()[i];
            let line = state.lines@[i];
            &&& state.corrected_file_entries().len() == state.lines@.len()
            &&& entry.line == file_entries(state.subtitle_file)[i].line
            &&& entry.start_ms >= 0 && entry.end_ms >= 0
            &&& line.corrected_start_ms >= 0 ==> entry.start_ms == line.corrected_start_ms
            &&& line.corrected_start_ms < 0 ==> entry.start_ms == 0
            &&& line.corrected_end_ms >= 0 ==> entry.end_ms == line.corrected_end_ms
            &&& line.corrected_end_ms < 0 ==> entry.end_ms == 0
        }),
{
}

} // verus!
