//! The corrected subtitle as text, in its own format or as SubRip.

use crate::engine::{format_srt_time, signed_timestamp, AlignmentEngine, SubtitleState};
use crate::readable::{is_readable, readable};
use crate::session::{format_from_name, named_format, FRAMES_PER_SECOND};
use crate::subtitle_file::{
    encoding_certain, entries_replaced, entry_numbers, entry_views, file_data, file_entries,
    lemma_tidy_is_plain, lemma_written_times, parse_file, parsed_file, read_entries, reads_as,
    replace_entries, subrip_text, text_view, texts_tidy, updated_file, write_file, EntryView,
    SubtitleEntry, SubtitleFormat,
};
use crate::text::{decimal, digits, ended, ended_text, lossy_text, lossy_utf8, same_text};
use vstd::prelude::*;
use vstd::utf8::{decode_utf8_encode_utf8, encode_utf8, encode_utf8_decode_utf8};

verus! {

/// The corrected entry of the line with index `i`.
pub open spec fn corrected_entry(sub: SubtitleState, i: int) -> EntryView {
    EntryView {
        start_ms: sub.corrected_start_ms@[i],
        end_ms: sub.corrected_end_ms@[i],
        line: Some(sub.line_texts@[i]@),
    }
}

/// The corrected entries of all lines.
pub open spec fn corrected_entries(sub: SubtitleState) -> Seq<EntryView> {
    Seq::new(sub.original_timespans@.len(), |i: int| corrected_entry(sub, i))
}

/// The SubRip block of the line with index `i`.
pub open spec fn srt_block(sub: SubtitleState, i: int) -> Seq<char> {
    digits((i + 1) as nat) + "\n"@ + signed_timestamp(sub.corrected_start_ms@[i]) + " --> "@
        + signed_timestamp(sub.corrected_end_ms@[i]) + "\n"@ + ended(sub.line_texts@[i]@) + "\n"@
}

/// The SubRip blocks of the first `n` lines.
pub open spec fn srt_blocks(sub: SubtitleState, n: int) -> Seq<char>
    decreases n,
{
    if n <= 0 {
        Seq::empty()
    } else {
        srt_blocks(sub, n - 1) + srt_block(sub, n - 1)
    }
}

/// Whether a subtitle is written in the target format line by line, and not by
/// way of its own file.
pub open spec fn from_scratch(sub: SubtitleState, target: Seq<char>) -> bool {
    target == "srt"@ && sub.format_str@ != "srt"@
}

/// The corrected subtitle in the target format, and the name of the format.
pub open spec fn corrected_subtitle(sub: SubtitleState, target: Seq<char>) -> Option<
    (Seq<char>, Seq<char>),
> {
    if named_format(sub.format_str@) is None || named_format(target) is None {
        None
    } else if from_scratch(sub, target) {
        Some((srt_blocks(sub, sub.original_timespans@.len() as int), "srt"@))
    } else {
        match parsed_file(named_format(target)->0, sub.raw_content@, FRAMES_PER_SECOND) {
            Ok(file) => match updated_file(file, corrected_entries(sub)) {
                Ok(corrected) => Some((lossy_utf8(file_data(corrected)), target)),
                Err(_) => None,
            },
            Err(_) => None,
        }
    }
}

/// Whether a subtitle can be written in the target format: if this goes by way
/// of its content, that can be parsed again and has an entry for each line.
pub open spec fn exportable(sub: SubtitleState, target: Seq<char>) -> bool {
    named_format(sub.format_str@) is Some && !from_scratch(sub, target) ==> (named_format(
        target,
    ) matches Some(format) ==> {
        &&& readable(format, sub.raw_content@)
        &&& parsed_file(format, sub.raw_content@, FRAMES_PER_SECOND) matches Ok(file) ==> {
            &&& file_entries(file).len() == sub.original_timespans@.len()
            &&& format is SubStationAlpha ==> sub.is_writable()
        }
    })
}

/// Whether the corrected times get into a file that is written by way of the
/// content: its entries are the corrected ones.
pub open spec fn carries_corrections(sub: SubtitleState, target: Seq<char>) -> bool {
    named_format(sub.format_str@) is Some && !from_scratch(sub, target) ==> (named_format(
        target,
    ) matches Some(format) ==> (parsed_file(
        format,
        sub.raw_content@,
        FRAMES_PER_SECOND,
    ) matches Ok(file) ==> {
        &&& updated_file(file, corrected_entries(sub)) matches Ok(corrected)
        &&& entries_replaced(
            format,
            file_entries(file),
            corrected_entries(sub),
            file_entries(corrected),
        )
    }))
}

/// What a SubRip subtitle is written as by way of its content: its blocks, with
/// the numbers of the content.
pub open spec fn spells_out(
    sub: SubtitleState,
    target: Seq<char>,
    content: Option<Seq<char>>,
) -> bool {
    target == "srt"@ && sub.format_str@ == "srt"@ ==> (parsed_file(
        SubtitleFormat::SubRip,
        sub.raw_content@,
        FRAMES_PER_SECOND,
    ) matches Ok(file) ==> (updated_file(file, corrected_entries(sub)) matches Ok(corrected)
        && content == Some(subrip_text(entry_numbers(file), file_entries(corrected)))))
}

/// Whether a SubRip subtitle that is written as SubRip text reads as the
/// corrected one: parsing the text gives the corrected times and the same
/// texts. This is said where all texts are tidy, as those of a SubRip file are,
/// and where the encoding of what is written is certain.
pub open spec fn reads_back(
    sub: SubtitleState,
    target: Seq<char>,
    content: Option<Seq<char>>,
) -> bool {
    target == "srt"@ && sub.format_str@ == "srt"@ && sub.original_timespans@.len() > 0
        && texts_tidy(corrected_entries(sub)) && encoding_certain(corrected_entries(sub))
        && parsed_file(SubtitleFormat::SubRip, sub.raw_content@, FRAMES_PER_SECOND) is Ok ==> (
    content matches Some(text) && reads_as(encode_utf8(text), corrected_entries(sub)))
}

/// The first of a pair that may be missing.
pub open spec fn first_text(r: Option<(Seq<char>, Seq<char>)>) -> Option<Seq<char>> {
    match r {
        Some(pair) => Some(pair.0),
        None => None,
    }
}

/// The texts of a pair of strings that may be missing.
pub open spec fn pair_view(r: Option<(String, String)>) -> Option<(Seq<char>, Seq<char>)> {
    match r {
        Some(pair) => Some((pair.0@, pair.1@)),
        None => None,
    }
}

/// The SubRip block of one line.
fn srt_block_text(sub: &SubtitleState, i: usize) -> (s: String)
    requires
        sub.wf(),
        i < sub.original_timespans@.len(),
    ensures
        s@ == srt_block(*sub, i as int),
{
    let count: usize = sub.original_timespans.len();
    assert(i < count);
    let mut s: String = decimal(i as u64 + 1);
    s.append("\n");
    s.append(format_srt_time(sub.corrected_start_ms[i]).as_str());
    s.append(" --> ");
    s.append(format_srt_time(sub.corrected_end_ms[i]).as_str());
    s.append("\n");
    s.append(ended_text(sub.line_texts[i].as_str()).as_str());
    s.append("\n");
    s
}

/// Whether no time is the least of all.
fn none_is_least(times: &Vec<i64>) -> (r: bool)
    ensures
        r <==> forall|i: int| 0 <= i < times@.len() ==> #[trigger] times@[i] > i64::MIN,
{
    let mut i: usize = 0;
    while i < times.len()
        invariant
            i <= times@.len(),
            forall|k: int| 0 <= k < i ==> #[trigger] times@[k] > i64::MIN,
        decreases times@.len() - i,
    {
        if times[i] == i64::MIN {
            assert(!(times@[i as int] > i64::MIN));
            return false;
        }
        i = i + 1;
    }
    true
}

/// The corrected entries of all lines.
fn entries_of(sub: &SubtitleState) -> (entries: Vec<SubtitleEntry>)
    requires
        sub.wf(),
    ensures
        entry_views(entries@) == corrected_entries(*sub),
{
    let n: usize = sub.original_timespans.len();
    let mut entries: Vec<SubtitleEntry> = Vec::with_capacity(n);
    let mut i: usize = 0;
    while i < n
        invariant
            i <= n,
            sub.wf(),
            n == sub.original_timespans@.len(),
            entries@.len() == i,
            forall|k: int| 0 <= k < i ==> (#[trigger] entries@[k])@ == corrected_entry(*sub, k),
        decreases n - i,
    {
        entries.push(
            SubtitleEntry {
                start_ms: sub.corrected_start_ms[i],
                end_ms: sub.corrected_end_ms[i],
                line: Some(sub.line_texts[i].clone()),
            },
        );
        i = i + 1;
    }
    assert(entry_views(entries@) =~= corrected_entries(*sub));
    entries
}

impl AlignmentEngine {
    /// Whether the loaded subtitle, if there is one, can be written in the
    /// target format.
    pub open spec fn can_write(&self, target: Seq<char>) -> bool {
        self.subtitle matches Some(sub) ==> exportable(sub, target)
    }

    /// The loaded subtitle with its corrected times in its own format, and the
    /// name of the format.
    pub fn get_corrected_subtitle(&self) -> (r: Option<(String, String)>)
        requires
            self.wf(),
            self.subtitle matches Some(sub) ==> self.can_write(sub.format_str@),
        ensures
            pair_view(r) == match self.subtitle {
                Some(sub) => corrected_subtitle(sub, sub.format_str@),
                None => None,
            },
            self.subtitle matches Some(sub) ==> carries_corrections(sub, sub.format_str@),
            self.subtitle matches Some(sub) ==> spells_out(
                sub,
                sub.format_str@,
                first_text(pair_view(r)),
            ),
            self.subtitle matches Some(sub) ==> reads_back(
                sub,
                sub.format_str@,
                first_text(pair_view(r)),
            ),
    {
        match &self.subtitle {
            Some(sub) => self.get_corrected_subtitle_as(sub.format_str.as_str()),
            None => None,
        }
    }

    /// The loaded subtitle with its corrected times as SubRip text.
    pub fn export_srt(&self) -> (r: Option<String>)
        requires
            self.wf(),
            self.can_write("srt"@),
        ensures
            match self.subtitle {
                Some(sub) => match corrected_subtitle(sub, "srt"@) {
                    Some(pair) => r matches Some(content) && content@ == pair.0,
                    None => r is None,
                },
                None => r is None,
            },
            self.subtitle matches Some(sub) ==> carries_corrections(sub, "srt"@),
            self.subtitle matches Some(sub) ==> spells_out(sub, "srt"@, text_view(r)),
            self.subtitle matches Some(sub) ==> reads_back(sub, "srt"@, text_view(r)),
    {
        match self.get_corrected_subtitle_as("srt") {
            Some((content, _format)) => Some(content),
            None => None,
        }
    }

    /// Whether the corrected subtitle can be written in the requested format.
    pub fn is_exportable(&self, target_format: &str) -> (r: bool)
        requires
            self.wf(),
        ensures
            r == self.can_write(target_format@),
    {
        let sub: &SubtitleState = match &self.subtitle {
            Some(sub) => sub,
            None => return true,
        };
        if format_from_name(sub.format_str.as_str()).is_none() {
            return true;
        }
        let format: SubtitleFormat = match format_from_name(target_format) {
            Some(format) => format,
            None => return true,
        };
        if same_text(target_format, "srt") && !same_text(sub.format_str.as_str(), "srt") {
            return true;
        }
        let bytes: &[u8] = sub.raw_content.as_slice();
        if !is_readable(format, bytes) {
            return false;
        }
        let file: subparse::SubtitleFile = match parse_file(format, bytes, FRAMES_PER_SECOND) {
            Ok(file) => file,
            Err(_) => return true,
        };
        let count: usize = match read_entries(&file) {
            Ok(entries) => {
                assert(entry_views(entries@).len() == entries@.len());
                entries.len()
            },
            Err(_) => return false,
        };
        let writable: bool = match format {
            SubtitleFormat::SubStationAlpha => none_is_least(&sub.corrected_start_ms)
                && none_is_least(&sub.corrected_end_ms),
            _ => true,
        };
        count == sub.original_timespans.len() && writable
    }

    /// Like `get_corrected_subtitle`, for any subtitle: `None` if it cannot be
    /// written.
    pub fn try_get_corrected_subtitle(&self) -> (r: Option<Option<(String, String)>>)
        requires
            self.wf(),
        ensures
            match self.subtitle {
                Some(sub) => if self.can_write(sub.format_str@) {
                    &&& r matches Some(found)
                    &&& pair_view(found) == corrected_subtitle(sub, sub.format_str@)
                    &&& carries_corrections(sub, sub.format_str@)
                    &&& spells_out(sub, sub.format_str@, first_text(pair_view(found)))
                    &&& reads_back(sub, sub.format_str@, first_text(pair_view(found)))
                } else {
                    r is None
                },
                None => r == Some(None::<(String, String)>),
            },
    {
        let exportable: bool = match &self.subtitle {
            Some(sub) => self.is_exportable(sub.format_str.as_str()),
            None => true,
        };
        if exportable {
            Some(self.get_corrected_subtitle())
        } else {
            None
        }
    }

    /// Like `export_srt`, for any subtitle: `None` if it cannot be written.
    pub fn try_export_srt(&self) -> (r: Option<Option<String>>)
        requires
            self.wf(),
        ensures
            match self.subtitle {
                Some(sub) => if self.can_write("srt"@) {
                    &&& r matches Some(found)
                    &&& match corrected_subtitle(sub, "srt"@) {
                        Some(pair) => found matches Some(content) && content@ == pair.0,
                        None => found is None,
                    }
                    &&& carries_corrections(sub, "srt"@)
                    &&& spells_out(sub, "srt"@, text_view(found))
                    &&& reads_back(sub, "srt"@, text_view(found))
                } else {
                    r is None
                },
                None => r == Some(None::<String>),
            },
    {
        if self.is_exportable("srt") {
            Some(self.export_srt())
        } else {
            None
        }
    }

    /// Produce the corrected subtitle in the requested format.
    fn get_corrected_subtitle_as(&self, target_format: &str) -> (r: Option<(String, String)>)
        requires
            self.wf(),
            self.can_write(target_format@),
        ensures
            pair_view(r) == match self.subtitle {
                Some(sub) => corrected_subtitle(sub, target_format@),
                None => None,
            },
            self.subtitle matches Some(sub) ==> carries_corrections(sub, target_format@),
            self.subtitle matches Some(sub) ==> spells_out(
                sub,
                target_format@,
                first_text(pair_view(r)),
            ),
            self.subtitle matches Some(sub) ==> reads_back(
                sub,
                target_format@,
                first_text(pair_view(r)),
            ),
    {
        let sub: &SubtitleState = match &self.subtitle {
            Some(sub) => sub,
            None => return None,
        };
        if format_from_name(sub.format_str.as_str()).is_none() {
            return None;
        }
        let format: SubtitleFormat = match format_from_name(target_format) {
            Some(format) => format,
            None => return None,
        };
        if same_text(target_format, "srt") && !same_text(sub.format_str.as_str(), "srt") {
            return Some((self.build_srt_from_scratch(sub), "srt".to_string()));
        }
        let mut file: subparse::SubtitleFile = match parse_file(
            format,
            sub.raw_content.as_slice(),
            FRAMES_PER_SECOND,
        ) {
            Ok(file) => file,
            Err(_) => return None,
        };
        let corrected: Vec<SubtitleEntry> = entries_of(sub);
        proof {
            let views = entry_views(corrected@);
            assert(views.len() == corrected@.len());
            if format is SubStationAlpha {
                assert forall|i: int| 0 <= i < views.len() implies (#[trigger] views[i]).start_ms
                    > i64::MIN && views[i].end_ms > i64::MIN by {
                    assert(views[i] == corrected_entry(*sub, i));
                }
            }
        }
        match replace_entries(&mut file, &corrected) {
            Ok(_) => {},
            Err(_) => return None,
        }
        proof {
            if format is SubStationAlpha {
                let before = parsed_file(format, sub.raw_content@, FRAMES_PER_SECOND)->Ok_0;
                lemma_written_times(
                    file_entries(before),
                    entry_views(corrected@),
                    file_entries(file),
                );
            } else {
                let entries = corrected_entries(*sub);
                if texts_tidy(entries) {
                    assert forall|k: int| 0 <= k < entries.len() implies #[trigger] file_entries(
                        file,
                    )[k] == entries[k] by {
                        assert(entries[k].line is Some);
                        lemma_tidy_is_plain(entries[k].line->0);
                    }
                    assert(file_entries(file) =~= entries);
                }
            }
        }
        match write_file(&file) {
            Ok(data) => {
                proof {
                    decode_utf8_encode_utf8(data@);
                    encode_utf8_decode_utf8(subrip_text(entry_numbers(file), file_entries(file)));
                }
                Some((lossy_text(&data), target_format.to_string()))
            },
            Err(_) => None,
        }
    }

    /// Fallback SRT builder for cross-format export.
    fn build_srt_from_scratch(&self, sub: &SubtitleState) -> (out: String)
        requires
            sub.wf(),
        ensures
            out@ == srt_blocks(*sub, sub.original_timespans@.len() as int),
    {
        let mut out: String = String::new();
        let n: usize = sub.line_texts.len();
        let mut i: usize = 0;
        while i < n
            invariant
                i <= n,
                sub.wf(),
                n == sub.original_timespans@.len(),
                out@ == srt_blocks(*sub, i as int),
            decreases n - i,
        {
            out.append(srt_block_text(sub, i).as_str());
            i = i + 1;
        }
        out
    }
}

} // verus!
