//! A subtitle file with original and corrected times for each line.

use crate::readable::readable;
use crate::subtitle_file::{
    copy_file, detect_format_or_err, detected_format, encoding_certain, entries_replaced,
    entry_numbers, entry_views, file_data, file_entries, file_format, has_texts, is_data_of,
    is_sound, lemma_texts_stay, lemma_written_times, parse_file, parsed_file, read_entries,
    reads_as, replace_entries, subrip_text, text_view, unknown_format_message, updated_file,
    write_file, EntryView, SubtitleEntry, SubtitleFormat,
};
use crate::text::{
    decimal, digits, ended, ended_text, timestamp, timestamp_text, utf8_fault, utf8_text,
};
use vstd::prelude::*;
use vstd::utf8::{
    decode_utf8, decode_utf8_encode_utf8, encode_utf8, encode_utf8_decode_utf8, valid_utf8,
};

verus! {

/// A single subtitle line with its timing information.
#[derive(Clone, Copy, Debug, PartialEq, Eq, Structural)]
pub struct SubtitleLine {
    /// Original start time in milliseconds.
    pub original_start_ms: i64,
    /// Original end time in milliseconds.
    pub original_end_ms: i64,
    /// Current corrected start time in milliseconds (starts equal to original).
    pub corrected_start_ms: i64,
    /// Current corrected end time in milliseconds (starts equal to original).
    pub corrected_end_ms: i64,
}

/// Holds the parsed subtitle state, including all lines and the backing file
/// for format-preserving round-trip output.
pub struct SubtitleState {
    pub lines: Vec<SubtitleLine>,
    /// Detected format string, e.g. "srt" or "ass".
    pub format: String,
    /// Backing parsed file used for format-preserving export.
    pub subtitle_file: subparse::SubtitleFile,
}

/// The line that an entry of a file makes, its times not yet corrected.
pub open spec fn fresh_line(entry: EntryView) -> SubtitleLine {
    SubtitleLine {
        original_start_ms: entry.start_ms,
        original_end_ms: entry.end_ms,
        corrected_start_ms: entry.start_ms,
        corrected_end_ms: entry.end_ms,
    }
}

/// The lines that the entries of a file make.
pub open spec fn fresh_lines(entries: Seq<EntryView>) -> Seq<SubtitleLine> {
    Seq::new(entries.len(), |i: int| fresh_line(entries[i]))
}

/// A line with its corrections taken back.
pub open spec fn restored_line(line: SubtitleLine) -> SubtitleLine {
    SubtitleLine {
        corrected_start_ms: line.original_start_ms,
        corrected_end_ms: line.original_end_ms,
        ..line
    }
}

/// `ms`, or zero if it is negative.
pub open spec fn not_before_zero(ms: i64) -> nat {
    if ms < 0 {
        0
    } else {
        ms as nat
    }
}

/// A text as the body of an SRT block: with a line feed at its end. Nothing
/// stands for a text that is missing.
pub open spec fn srt_body(text: Option<Seq<char>>) -> Seq<char> {
    match text {
        Some(text) => ended(text),
        None => Seq::empty(),
    }
}

/// The block of an SRT file for the line with index `i`.
pub open spec fn srt_block(i: int, line: SubtitleLine, text: Option<Seq<char>>) -> Seq<char> {
    digits((i + 1) as nat) + "\n"@ + timestamp(not_before_zero(line.corrected_start_ms))
        + " --> "@ + timestamp(not_before_zero(line.corrected_end_ms)) + "\n"@ + srt_body(text)
        + "\n"@
}

/// The blocks of the first `n` lines, in order, with the texts of the entries.
pub open spec fn srt_blocks(
    lines: Seq<SubtitleLine>,
    entries: Seq<EntryView>,
    n: int,
) -> Seq<char>
    decreases n,
{
    if n <= 0 {
        Seq::empty()
    } else {
        srt_blocks(lines, entries, n - 1) + srt_block(n - 1, lines[n - 1], entries[n - 1].line)
    }
}

/// The corrected entry for a line: its times, none of them before zero, and
/// no new text.
pub open spec fn corrected_entry(line: SubtitleLine) -> EntryView {
    EntryView {
        start_ms: not_before_zero(line.corrected_start_ms) as i64,
        end_ms: not_before_zero(line.corrected_end_ms) as i64,
        line: None,
    }
}

/// The corrected entries for all lines.
pub open spec fn corrected_entries(lines: Seq<SubtitleLine>) -> Seq<EntryView> {
    Seq::new(lines.len(), |i: int| corrected_entry(lines[i]))
}

/// The name under which a format is remembered: `srt` and `ass` for the
/// formats they stand for, the given hint for any other.
pub open spec fn format_name(format: SubtitleFormat, hint: Seq<char>) -> Seq<char> {
    match format {
        SubtitleFormat::SubRip => "srt"@,
        SubtitleFormat::SubStationAlpha => "ass"@,
        _ => hint,
    }
}

/// The text that written bytes stand for, or the error.
pub open spec fn exported_text(data: Seq<u8>) -> Result<Seq<char>, Seq<char>> {
    if valid_utf8(data) {
        Ok(decode_utf8(data))
    } else {
        Err("subtitle output is not valid UTF-8: "@ + utf8_fault(data))
    }
}

/// The view of a result of strings.
pub open spec fn text_result(r: Result<String, String>) -> Result<Seq<char>, Seq<char>> {
    match r {
        Ok(s) => Ok(s@),
        Err(e) => Err(e@),
    }
}

/// The lines that the entries of a file make, their times not yet corrected.
pub fn lines_from_entries(entries: &Vec<SubtitleEntry>) -> (lines: Vec<SubtitleLine>)
    ensures
        lines@ == fresh_lines(entry_views(entries@)),
{
    let mut lines: Vec<SubtitleLine> = Vec::with_capacity(entries.len());
    let mut i: usize = 0;
    while i < entries.len()
        invariant
            i <= entries.len(),
            lines@ == fresh_lines(entry_views(entries@)).take(i as int),
        decreases entries.len() - i,
    {
        let start_ms: i64 = entries[i].start_ms;
        let end_ms: i64 = entries[i].end_ms;
        lines.push(
            SubtitleLine {
                original_start_ms: start_ms,
                original_end_ms: end_ms,
                corrected_start_ms: start_ms,
                corrected_end_ms: end_ms,
            },
        );
        assert(lines@ =~= fresh_lines(entry_views(entries@)).take(i + 1));
        i = i + 1;
    }
    assert(lines@ =~= fresh_lines(entry_views(entries@)));
    lines
}

/// A message followed by a detail.
fn message(what: &str, detail: &str) -> (s: String)
    ensures
        s@ == what@ + detail@,
{
    let mut s: String = what.to_string();
    s.append(detail);
    s
}

/// The text that written bytes stand for.
pub fn text_of_export(data: Vec<u8>) -> (r: Result<String, String>)
    ensures
        text_result(r) == exported_text(data@),
{
    match utf8_text(data) {
        Ok(text) => Ok(text),
        Err(e) => Err(message("subtitle output is not valid UTF-8: ", e.as_str())),
    }
}

/// The block of an SRT file for one line.
fn srt_block_text(i: u64, line: SubtitleLine, text: &Option<String>) -> (s: String)
    requires
        i < u64::MAX,
    ensures
        s@ == srt_block(i as int, line, text_view(*text)),
{
    let mut s: String = decimal(i + 1);
    s.append("\n");
    s.append(format_srt_time(line.corrected_start_ms).as_str());
    s.append(" --> ");
    s.append(format_srt_time(line.corrected_end_ms).as_str());
    s.append("\n");
    match text {
        Some(text) => s.append(ended_text(text.as_str()).as_str()),
        None => {
            assert(s@ + Seq::<char>::empty() =~= s@);
        },
    }
    s.append("\n");
    s
}

impl SubtitleState {
    /// Whether there is one line for each entry of the backing file, which is
    /// one that was read.
    pub open spec fn wf(&self) -> bool {
        &&& self.lines@.len() == file_entries(self.subtitle_file).len()
        &&& is_sound(self.subtitle_file)
    }

    /// Whether the corrected times get into a file that is exported: there is
    /// such a file unless the format is the binary one. It has its own texts
    /// and, if it is a SubRip or SubStation Alpha file, the corrected times.
    pub open spec fn carries_corrections(&self) -> bool {
        let format = file_format(self.subtitle_file);
        let updated = updated_file(self.subtitle_file, corrected_entries(self.lines@));
        &&& updated is Err <==> format is VobSubSub
        &&& has_texts(format) ==> entries_replaced(
            format,
            file_entries(self.subtitle_file),
            corrected_entries(self.lines@),
            file_entries(updated->Ok_0),
        )
    }

    /// The entries of the backing file with the corrected times.
    pub open spec fn corrected_file_entries(&self) -> Seq<EntryView> {
        Seq::new(
            self.lines@.len(),
            |i: int|
                EntryView {
                    line: file_entries(self.subtitle_file)[i].line,
                    ..corrected_entry(self.lines@[i])
                },
        )
    }

    /// What a SubRip subtitle is exported as: its blocks with the numbers and
    /// texts of the backing file and the corrected times.
    pub open spec fn spells_out(&self, r: Result<Seq<char>, Seq<char>>) -> bool {
        file_format(self.subtitle_file) is SubRip ==> r == Ok::<Seq<char>, Seq<char>>(
            subrip_text(entry_numbers(self.subtitle_file), self.corrected_file_entries()),
        )
    }

    /// Whether a subtitle that is exported as SubRip text reads as the
    /// corrected one: parsing the text gives the corrected times, and the same
    /// texts. This is said where the encoding of the text is certain.
    pub open spec fn reads_back(&self, r: Result<Seq<char>, Seq<char>>) -> bool {
        file_format(self.subtitle_file) is SubRip && self.lines@.len() > 0 && encoding_certain(
            file_entries(self.subtitle_file),
        ) ==> (r matches Ok(text) && reads_as(encode_utf8(text), self.corrected_file_entries()))
    }

    /// Parse a subtitle file from its raw text content and a format hint string
    /// ("srt" or "ass").
    pub fn parse(content: &str, format_hint: &str) -> (r: Result<Self, String>)
        requires
            detected_format(
                Some(format_hint@),
                encode_utf8(content@),
            ) matches Some(format) ==> readable(
                format,
                encode_utf8(content@),
            ),
        ensures
            r matches Ok(state) ==> state.wf() && state.lines@.len() > 0,
            match detected_format(
                Some(format_hint@),
                encode_utf8(content@),
            ) {
                None => r matches Err(e) && e@ == "unsupported subtitle format '"@ + format_hint@
                    + "': "@ + unknown_format_message(),
                Some(format) => match parsed_file(
                    format,
                    encode_utf8(content@),
                    24,
                ) {
                    Err(reason) => r matches Err(e) && e@ == "failed to parse subtitle: "@ + reason,
                    Ok(file) => if file_entries(file).len() == 0 {
                        r matches Err(e) && e@ == "subtitle file contains no entries"@
                    } else {
                        r matches Ok(state) && {
                            &&& state.lines@ == fresh_lines(
                                file_entries(file),
                            )
                            &&& state.format@ == format_name(format, format_hint@)
                            &&& state.subtitle_file == file
                            &&& file_format(file) == format
                        }
                    },
                },
            },
    {
        let bytes: &[u8] = content.as_bytes();
        let format: SubtitleFormat = match detect_format_or_err(format_hint, bytes) {
            Ok(format) => format,
            Err(e) => {
                let mut s: String = message("unsupported subtitle format '", format_hint);
                s.append("': ");
                s.append(e.as_str());
                return Err(s);
            },
        };
        let format_str: &str = match format {
            SubtitleFormat::SubRip => "srt",
            SubtitleFormat::SubStationAlpha => "ass",
            _ => format_hint,
        };
        let subtitle_file: subparse::SubtitleFile = match parse_file(format, bytes, 24) {
            Ok(file) => file,
            Err(e) => return Err(message("failed to parse subtitle: ", e.as_str())),
        };
        let entries: Vec<SubtitleEntry> = match read_entries(&subtitle_file) {
            Ok(entries) => entries,
            Err(e) => return Err(message("failed to get subtitle entries: ", e.as_str())),
        };
        if entries.len() == 0 {
            return Err("subtitle file contains no entries".to_string());
        }
        let lines: Vec<SubtitleLine> = lines_from_entries(&entries);
        Ok(SubtitleState { lines, format: format_str.to_string(), subtitle_file })
    }

    /// Reset all corrected timings back to the original values.
    pub fn reset_corrections(&mut self)
        ensures
            final(self).lines@ == old(self).lines@.map_values(|l: SubtitleLine| restored_line(l)),
            final(self).format == old(self).format,
            final(self).subtitle_file == old(self).subtitle_file,
            old(self).wf() ==> final(self).wf(),
    {
        let ghost before = self.lines@;
        let ghost restored = before.map_values(|l: SubtitleLine| restored_line(l));
        let n: usize = self.lines.len();
        let mut i: usize = 0;
        while i < n
            invariant
                i <= n,
                n == before.len(),
                restored == before.map_values(|l: SubtitleLine| restored_line(l)),
                self.lines@.len() == n,
                forall|k: int| 0 <= k < i ==> self.lines@[k] == #[trigger] restored[k],
                forall|k: int| i <= k < n ==> self.lines@[k] == #[trigger] before[k],
                self.format == old(self).format,
                self.subtitle_file == old(self).subtitle_file,
            decreases n - i,
        {
            let mut line: SubtitleLine = self.lines[i];
            assert(line == before[i as int]);
            assert(restored[i as int] == restored_line(before[i as int]));
            line.corrected_start_ms = line.original_start_ms;
            line.corrected_end_ms = line.original_end_ms;
            self.lines.set(i, line);
            i = i + 1;
        }
        assert(self.lines@ =~= restored);
    }

    /// Export the corrected subtitle as SRT text, regardless of original format.
    pub fn export_srt(&self) -> (out: String)
        requires
            self.wf(),
        ensures
            out@ == srt_blocks(
                self.lines@,
                file_entries(self.subtitle_file),
                self.lines@.len() as int,
            ),
    {
        let ghost texts = file_entries(self.subtitle_file);
        let mut out: String = String::new();
        let entries: Vec<SubtitleEntry> = match read_entries(&self.subtitle_file) {
            Ok(entries) => entries,
            Err(_) => return out,
        };
        let n: usize = self.lines.len();
        assert(entry_views(entries@).len() == n);
        let mut i: usize = 0;
        while i < n
            invariant
                i <= n,
                n == self.lines@.len(),
                n == entries@.len(),
                entry_views(entries@) == texts,
                out@ == srt_blocks(self.lines@, texts, i as int),
            decreases n - i,
        {
            assert(entry_views(entries@)[i as int] == entries@[i as int]@);
            out.append(srt_block_text(i as u64, self.lines[i], &entries[i].line).as_str());
            i = i + 1;
        }
        out
    }

    /// Export the corrected subtitle in its original format as a UTF-8 string.
    /// A VobSub index has no such export.
    pub fn export_corrected(&self) -> (r: Result<String, String>)
        requires
            self.wf(),
            file_format(self.subtitle_file) is VobSubIdx ==> self.lines@.len() == 0,
        ensures
            match updated_file(
                self.subtitle_file,
                corrected_entries(self.lines@),
            ) {
                Err(reason) => r matches Err(e) && e@ == "failed to update subtitle entries: "@
                    + reason,
                Ok(file) => exists|data: Seq<u8>|
                    {
                        &&& text_result(r) == #[trigger] exported_text(data)
                        &&& is_data_of(file, data)
                        &&& valid_utf8(data)
                        &&& !(file_format(self.subtitle_file) is MicroDVD) ==> data
                            == file_data(file)
                    },
            },
            self.carries_corrections(),
            self.spells_out(text_result(r)),
            self.reads_back(text_result(r)),
    {
        let mut entries: Vec<SubtitleEntry> = Vec::with_capacity(self.lines.len());
        let mut i: usize = 0;
        while i < self.lines.len()
            invariant
                i <= self.lines@.len(),
                entries@.len() == i,
                forall|k: int|
                    0 <= k < i ==> (#[trigger] entries@[k])@ == corrected_entry(self.lines@[k]),
            decreases self.lines@.len() - i,
        {
            let line: SubtitleLine = self.lines[i];
            let start_ms: i64 = if line.corrected_start_ms < 0 { 0 } else { line.corrected_start_ms };
            let end_ms: i64 = if line.corrected_end_ms < 0 { 0 } else { line.corrected_end_ms };
            entries.push(SubtitleEntry { start_ms, end_ms, line: None });
            i = i + 1;
        }
        assert(entry_views(entries@) =~= corrected_entries(self.lines@));
        let mut file: subparse::SubtitleFile = copy_file(&self.subtitle_file);
        match replace_entries(&mut file, &entries) {
            Ok(_) => {},
            Err(e) => return Err(message("failed to update subtitle entries: ", e.as_str())),
        }
        proof {
            if file_format(file) is SubRip {
                assert(file_entries(file) =~= self.corrected_file_entries());
                lemma_texts_stay(file_entries(self.subtitle_file), file_entries(file));
            } else if file_format(file) is SubStationAlpha {
                lemma_written_times(
                    file_entries(self.subtitle_file),
                    corrected_entries(self.lines@),
                    file_entries(file),
                );
            }
        }
        let data: Vec<u8> = match write_file(&file) {
            Ok(data) => data,
            Err(e) => return Err(message("failed to serialize subtitle: ", e.as_str())),
        };
        let ghost written = data@;
        let r: Result<String, String> = text_of_export(data);
        assert(text_result(r) == exported_text(written));
        proof {
            decode_utf8_encode_utf8(written);
            if file_format(file) is SubRip {
                encode_utf8_decode_utf8(
                    subrip_text(entry_numbers(file), self.corrected_file_entries()),
                );
            }
        }
        r
    }

    /// Number of subtitle lines.
    pub fn len(&self) -> (n: usize)
        ensures
            n == self.lines@.len(),
    {
        self.lines.len()
    }

    /// Access lines as a slice.
    pub fn lines(&self) -> (lines: &[SubtitleLine])
        ensures
            lines@ == self.lines@,
    {
        self.lines.as_slice()
    }
}

/// Format milliseconds as an SRT timestamp: HH:MM:SS,mmm. A negative time is
/// written as zero.
pub fn format_srt_time(ms: i64) -> (s: String)
    ensures
        s@ == timestamp(not_before_zero(ms)),
{
    let ms: u64 = if ms < 0 { 0 } else { ms as u64 };
    timestamp_text(ms)
}

} // verus!
