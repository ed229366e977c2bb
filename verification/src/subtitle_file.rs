//! Subtitle files as the `subparse` crate reads and writes them.
//!
//! What a file holds beyond its entries (styles, comments, line ends) is the
//! crate's own affair: a file is carried through as it is, and only its
//! entries are read and replaced.

use crate::encoding::{is_white, none_misleading, wide_count};
use crate::readable::readable;
use crate::text::{signed_digits, signed_parts};
use vstd::prelude::*;
use vstd::utf8::{encode_utf8, valid_utf8};

verus! {

/// The formats that a subtitle file may come in.
#[derive(Clone, Copy, Debug, PartialEq, Eq, Structural)]
pub enum SubtitleFormat {
    /// .srt file
    SubRip,
    /// .ssa/.ass file
    SubStationAlpha,
    /// .idx file
    VobSubIdx,
    /// .sub file (`VobSub`/binary)
    VobSubSub,
    /// .sub file (`MicroDVD`/text)
    MicroDVD,
}

/// One subtitle: when it is shown, and its text where the format has one.
#[derive(Debug)]
pub struct SubtitleEntry {
    pub start_ms: i64,
    pub end_ms: i64,
    pub line: Option<String>,
}

/// What an entry says.
pub struct EntryView {
    pub start_ms: i64,
    pub end_ms: i64,
    pub line: Option<Seq<char>>,
}

/// The characters of a text that may be missing.
pub open spec fn text_view(line: Option<String>) -> Option<Seq<char>> {
    match line {
        Some(text) => Some(text@),
        None => None,
    }
}

impl View for SubtitleEntry {
    type V = EntryView;

    open spec fn view(&self) -> EntryView {
        EntryView { start_ms: self.start_ms, end_ms: self.end_ms, line: text_view(self.line) }
    }
}

/// Whether no time is the least of all, which has no negative.
pub open spec fn writable(entries: Seq<EntryView>) -> bool {
    forall|i: int|
        0 <= i < entries.len() ==> (#[trigger] entries[i]).start_ms > i64::MIN && entries[i].end_ms
            > i64::MIN
}

/// Whether a text neither begins nor ends with white space, and none of its
/// lines does. So no line of it is empty.
pub open spec fn is_tidy(text: Seq<char>) -> bool {
    &&& text.len() > 0 ==> !is_white(text[0] as u32) && !is_white(text.last() as u32)
    &&& forall|i: int|
        0 < i < text.len() - 1 && #[trigger] text[i] == '\n' ==> !is_white(text[i - 1] as u32)
            && !is_white(text[i + 1] as u32)
}

/// The text of an entry, or nothing if it has none.
pub open spec fn text_or_nothing(entry: EntryView) -> Seq<char> {
    match entry.line {
        Some(text) => text,
        None => Seq::empty(),
    }
}

/// Whether every entry has a text, and a tidy one.
pub open spec fn texts_tidy(entries: Seq<EntryView>) -> bool {
    forall|i: int|
        0 <= i < entries.len() ==> (#[trigger] entries[i]).line is Some && is_tidy(
            text_or_nothing(entries[i]),
        )
}

/// Whether a text is all ASCII, without escape bytes.
pub open spec fn is_simple(text: Seq<char>) -> bool {
    forall|i: int|
        0 <= i < text.len() ==> (#[trigger] text[i] as u32) < 0x80 && text[i] as u32 != 0x1b
}

/// How many characters of all texts are not ASCII.
pub open spec fn wide_total(entries: Seq<EntryView>) -> nat
    decreases entries.len(),
{
    if entries.len() == 0 {
        0
    } else {
        wide_total(entries.drop_last()) + wide_count(text_or_nothing(entries.last()))
    }
}

/// Whether the encoding of a file with these texts, written as UTF-8, cannot be
/// mistaken: they are all ASCII, or five of their characters are not and none
/// is misleading.
pub open spec fn encoding_certain(entries: Seq<EntryView>) -> bool {
    ||| forall|i: int| 0 <= i < entries.len() ==> is_simple(#[trigger] text_or_nothing(entries[i]))
    ||| wide_total(entries) >= 5 && forall|i: int|
        0 <= i < entries.len() ==> none_misleading(#[trigger] text_or_nothing(entries[i]))
}

// ---------------------------------------------------------------------------
// SubRip text
// ---------------------------------------------------------------------------

/// The block of a SubRip file for one entry: its number, its times, its text
/// and an empty line.
pub open spec fn subrip_block(number: i64, entry: EntryView) -> Seq<char> {
    signed_digits(number as int) + "\n"@ + signed_parts(entry.start_ms as int) + " --> "@
        + signed_parts(entry.end_ms as int) + "\n"@ + text_or_nothing(entry) + "\n\n"@
}

/// The text of a SubRip file: the blocks of its entries, in order.
pub open spec fn subrip_text(numbers: Seq<i64>, entries: Seq<EntryView>) -> Seq<char>
    decreases entries.len(),
{
    if entries.len() == 0 {
        Seq::empty()
    } else {
        let n = entries.len() - 1;
        subrip_text(numbers, entries.drop_last()) + subrip_block(numbers[n], entries[n])
    }
}

/// What a list of entries says.
pub open spec fn entry_views(entries: Seq<SubtitleEntry>) -> Seq<EntryView> {
    Seq::new(entries.len(), |i: int| entries[i]@)
}

// ---------------------------------------------------------------------------
// Files
// ---------------------------------------------------------------------------

#[verifier::external_type_specification]
#[verifier::external_body]
pub struct ExSubtitleFile(subparse::SubtitleFile);

/// The entries that a file holds, in the order of the file.
pub uninterp spec fn file_entries(file: subparse::SubtitleFile) -> Seq<EntryView>;

/// The format of a file.
pub uninterp spec fn file_format(file: subparse::SubtitleFile) -> SubtitleFormat;

/// Whether the entries of a file can be listed. They cannot where a line of
/// dialogue of a SubStation Alpha file lacks its start or its end, or where
/// the last time of a VobSub index leaves no room for a minute more.
pub uninterp spec fn is_whole(file: subparse::SubtitleFile) -> bool;

/// The numbers that a SubRip file has before its entries.
pub uninterp spec fn entry_numbers(file: subparse::SubtitleFile) -> Seq<i64>;

/// What holds of a file that was read: its entries can be listed, those of a
/// SubStation Alpha file can be written, and the texts of a SubRip file are
/// tidy.
pub open spec fn is_sound(file: subparse::SubtitleFile) -> bool {
    &&& is_whole(file)
    &&& file_format(file) is SubStationAlpha ==> writable(file_entries(file))
    &&& file_format(file) is SubRip ==> texts_tidy(file_entries(file))
}

/// What `subparse::parse_bytes` makes of the given bytes, the encoding being
/// detected: the file, or the message of the error.
pub uninterp spec fn parsed_file(format: SubtitleFormat, bytes: Seq<u8>, fps: u32) -> Result<
    subparse::SubtitleFile,
    Seq<char>,
>;

/// What `subparse::SubtitleFile::update_subtitle_entries` makes of a file:
/// the file with its entries replaced, or the message of the error.
pub uninterp spec fn updated_file(
    file: subparse::SubtitleFile,
    entries: Seq<EntryView>,
) -> Result<subparse::SubtitleFile, Seq<char>>;

/// The bytes that `subparse::SubtitleFile::to_data` writes for a file that is
/// not a MicroDVD one.
pub uninterp spec fn file_data(file: subparse::SubtitleFile) -> Seq<u8>;

/// Whether `subparse::SubtitleFile::to_data` may write these bytes for a file.
pub uninterp spec fn is_data_of(file: subparse::SubtitleFile, data: Seq<u8>) -> bool;

/// `subparse::parse_bytes`, with the encoding detected: a file of the format
/// asked for, or an error. `readable` leaves out files whose entries could not
/// be listed, and SubStation Alpha files in which a time is the least of all.
/// The text of a SubRip entry is made up of lines that are not empty and have
/// no white space around them, and every entry has a number. Bytes on which the
/// call panics are left out.
#[verifier::external_body]
pub(crate) fn parse_file(format: SubtitleFormat, bytes: &[u8], fps: u32) -> (r: Result<
    subparse::SubtitleFile,
    String,
>)
    requires
        readable(format, bytes@),
        fps > 0,
    ensures
        parsed_file(format, bytes@, fps) == match r {
            Ok(file) => Ok::<subparse::SubtitleFile, Seq<char>>(file),
            Err(e) => Err::<subparse::SubtitleFile, Seq<char>>(e@),
        },
        r matches Ok(file) ==> file_format(file) == format,
        r matches Ok(file) ==> is_sound(file),
        r matches Ok(file) ==> format is SubRip ==> entry_numbers(file).len() == file_entries(
            file,
        ).len(),
{
    let format = match format {
        SubtitleFormat::SubRip => subparse::SubtitleFormat::SubRip,
        SubtitleFormat::SubStationAlpha => subparse::SubtitleFormat::SubStationAlpha,
        SubtitleFormat::VobSubIdx => subparse::SubtitleFormat::VobSubIdx,
        SubtitleFormat::VobSubSub => subparse::SubtitleFormat::VobSubSub,
        SubtitleFormat::MicroDVD => subparse::SubtitleFormat::MicroDVD,
    };
    subparse::parse_bytes(format, bytes, None, fps.into()).map_err(|e| e.to_string())
}

/// `subparse::SubtitleFile::get_subtitle_entries`, which reports no error. It
/// panics on a SubStation Alpha file with a line of dialogue that lacks one of
/// its times, and on a VobSub index whose last time leaves no room for a minute
/// more.
#[verifier::external_body]
pub(crate) fn read_entries(file: &subparse::SubtitleFile) -> (r: Result<
    Vec<SubtitleEntry>,
    String,
>)
    requires
        is_whole(*file),
    ensures
        r is Ok,
        entry_views(r->Ok_0@) == file_entries(*file),
{
    match file.get_subtitle_entries() {
        Ok(entries) => Ok(
            entries.into_iter().map(
                |e| SubtitleEntry {
                    start_ms: e.timespan.start.msecs(),
                    end_ms: e.timespan.end.msecs(),
                    line: e.line,
                },
            ).collect(),
        ),
        Err(e) => Err(e.to_string()),
    }
}

/// `subparse::SubtitleFile::update_subtitle_entries`: fails on a binary
/// VobSub file, and on no other. A SubRip, SubStation Alpha or MicroDVD file
/// then has the given texts, which a SubRip file holds as lines, and keeps the
/// text of every entry for which none is given. A SubRip or SubStation Alpha
/// file has the given times too, and a SubRip file its old numbers. The count of
/// entries has to stay the same, or the call panics; it also panics on every
/// VobSub index that has an entry, and where the entries cannot be listed.
///
/// A MicroDVD file turns the times into frame numbers in floating point. What
/// times it then has is left unsaid.
#[verifier::external_body]
pub(crate) fn replace_entries(
    file: &mut subparse::SubtitleFile,
    entries: &Vec<SubtitleEntry>,
) -> (r: Result<(), String>)
    requires
        is_whole(*old(file)),
        entries@.len() == file_entries(*old(file)).len(),
        file_format(*old(file)) is VobSubIdx ==> entries@.len() == 0,
    ensures
        updated_file(*old(file), entry_views(entries@)) == match r {
            Ok(_) => Ok::<subparse::SubtitleFile, Seq<char>>(*final(file)),
            Err(e) => Err::<subparse::SubtitleFile, Seq<char>>(e@),
        },
        r is Err <==> file_format(*old(file)) is VobSubSub,
        r is Err ==> *final(file) == *old(file),
        file_format(*final(file)) == file_format(*old(file)),
        is_whole(*final(file)),
        entry_numbers(*final(file)) == entry_numbers(*old(file)),
        has_texts(file_format(*old(file))) ==> entries_replaced(
            file_format(*old(file)),
            file_entries(*old(file)),
            entry_views(entries@),
            file_entries(*final(file)),
        ),
{
    let entries: Vec<subparse::SubtitleEntry> = entries.iter().map(
        |e| subparse::SubtitleEntry {
            timespan: subparse::timetypes::TimeSpan::new(
                subparse::timetypes::TimePoint::from_msecs(e.start_ms),
                subparse::timetypes::TimePoint::from_msecs(e.end_ms),
            ),
            line: e.line.clone(),
        },
    ).collect();
    file.update_subtitle_entries(&entries).map_err(|e| e.to_string())
}

/// Whether a text stays as it is when it is cut into lines and put together
/// again: no carriage return comes before a line feed, and no line feed at the
/// end.
pub open spec fn is_plain(text: Seq<char>) -> bool {
    &&& text.len() > 0 ==> text.last() != '\n'
    &&& forall|i: int|
        0 <= i < text.len() - 1 && #[trigger] text[i] == '\r' ==> text[i + 1] != '\n'
}

/// Whether the entries of a file of the format have texts.
pub open spec fn has_texts(format: SubtitleFormat) -> bool {
    format is SubRip || format is SubStationAlpha || format is MicroDVD
}

/// Whether `after` has as many entries as `before`, the times of `given`
/// unless the format counts frames, its texts, in a SubRip file as far as they
/// are plain, and the old text wherever `given` has none.
pub open spec fn entries_replaced(
    format: SubtitleFormat,
    before: Seq<EntryView>,
    given: Seq<EntryView>,
    after: Seq<EntryView>,
) -> bool {
    &&& after.len() == before.len()
    &&& forall|i: int|
        0 <= i < after.len() ==> {
            &&& !(format is MicroDVD) ==> (#[trigger] after[i]).start_ms == given[i].start_ms
                && after[i].end_ms == given[i].end_ms
            &&& given[i].line is None ==> after[i].line == before[i].line
            &&& given[i].line matches Some(text) ==> (format is SubRip ==> is_plain(text))
                ==> after[i].line == Some(text)
        }
}

/// Whether the bytes of a SubRip file can be parsed, at any frame rate, and
/// give a file with these entries.
pub open spec fn reads_as(data: Seq<u8>, entries: Seq<EntryView>) -> bool {
    &&& readable(SubtitleFormat::SubRip, data)
    &&& forall|fps: u32|
        fps > 0 ==> (#[trigger] parsed_file(SubtitleFormat::SubRip, data, fps) matches Ok(file)
            && file_format(file) is SubRip && file_entries(file) == entries)
}

/// `subparse::SubtitleFile::to_data`, which reports no error. It writes text,
/// except for a binary file. A MicroDVD file may list the formatting of a line
/// in any order, so that its bytes are not a function of the file; they are
/// some that `to_data` may write for it. A SubRip file is written block by
/// block. If it has at least one entry, if all its texts are tidy and if the
/// encoding of what is written is certain, the parser gets the same times and
/// texts from the bytes. Where a few characters are not ASCII, it may guess
/// another encoding, and nothing is said. The call panics on the least of all
/// times in a SubStation Alpha file.
#[verifier::external_body]
pub(crate) fn write_file(file: &subparse::SubtitleFile) -> (r: Result<Vec<u8>, String>)
    requires
        file_format(*file) is SubStationAlpha ==> writable(file_entries(*file)),
    ensures
        r is Ok,
        is_data_of(*file, r->Ok_0@),
        !(file_format(*file) is MicroDVD) ==> r->Ok_0@ == file_data(*file),
        !(file_format(*file) is VobSubSub) ==> valid_utf8(r->Ok_0@),
        file_format(*file) is SubRip ==> r->Ok_0@ == encode_utf8(
            subrip_text(entry_numbers(*file), file_entries(*file)),
        ),
        file_format(*file) is SubRip && file_entries(*file).len() > 0 && texts_tidy(
            file_entries(*file),
        ) && encoding_certain(file_entries(*file)) ==> reads_as(r->Ok_0@, file_entries(*file)),
{
    file.to_data().map_err(|e| e.to_string())
}

/// `subparse::SubtitleFile::clone`: the same file once more.
#[verifier::external_body]
pub(crate) fn copy_file(file: &subparse::SubtitleFile) -> (r: subparse::SubtitleFile)
    ensures
        r == *file,
{
    file.clone()
}

/// Entries with the texts of others are as tidy, and as certain to be read in
/// the right encoding.
pub proof fn lemma_texts_stay(before: Seq<EntryView>, after: Seq<EntryView>)
    requires
        after.len() == before.len(),
        forall|i: int| 0 <= i < after.len() ==> (#[trigger] after[i]).line == before[i].line,
    ensures
        texts_tidy(before) ==> texts_tidy(after),
        encoding_certain(before) == encoding_certain(after),
{
    lemma_same_wide_total(before, after);
    assert forall|i: int| 0 <= i < after.len() implies #[trigger] text_or_nothing(after[i])
        == text_or_nothing(before[i]) by {}
    assert forall|i: int| 0 <= i < before.len() implies #[trigger] text_or_nothing(before[i])
        == text_or_nothing(after[i]) by {
        assert(after[i].line == before[i].line);
    }
    if texts_tidy(before) {
        assert forall|i: int| 0 <= i < after.len() implies (#[trigger] after[i]).line is Some
            && is_tidy(text_or_nothing(after[i])) by {
            assert(before[i].line is Some);
        }
    }
}

/// Entries with the same texts have as many characters that are not ASCII.
proof fn lemma_same_wide_total(before: Seq<EntryView>, after: Seq<EntryView>)
    requires
        after.len() == before.len(),
        forall|i: int| 0 <= i < after.len() ==> (#[trigger] after[i]).line == before[i].line,
    ensures
        wide_total(before) == wide_total(after),
    decreases after.len(),
{
    if after.len() > 0 {
        let (b, a) = (before.drop_last(), after.drop_last());
        assert forall|i: int| 0 <= i < a.len() implies (#[trigger] a[i]).line == b[i].line by {
            assert(a[i] == after[i]);
        }
        lemma_same_wide_total(b, a);
        assert(after[after.len() - 1].line == before[before.len() - 1].line);
    }
}

/// A tidy text stays as it is when it is cut into lines and put together again.
pub proof fn lemma_tidy_is_plain(text: Seq<char>)
    requires
        is_tidy(text),
    ensures
        is_plain(text),
{
    assert forall|i: int| 0 <= i < text.len() - 1 && #[trigger] text[i] == '\r' implies text[i + 1]
        != '\n' by {
        if text[i + 1] == '\n' && i + 1 < text.len() - 1 {
            assert(!is_white(text[i + 1 - 1] as u32));
        }
    }
}

/// Times that could be written can be once they are in a file.
pub proof fn lemma_written_times(
    before: Seq<EntryView>,
    given: Seq<EntryView>,
    after: Seq<EntryView>,
)
    requires
        entries_replaced(SubtitleFormat::SubStationAlpha, before, given, after),
        given.len() == before.len(),
        writable(given),
    ensures
        writable(after),
{
    assert forall|i: int| 0 <= i < after.len() implies (#[trigger] after[i]).start_ms > i64::MIN
        && after[i].end_ms > i64::MIN by {
        assert(given[i].start_ms == after[i].start_ms);
    }
}

// ---------------------------------------------------------------------------
// Formats
// ---------------------------------------------------------------------------

/// The view of a string that may be missing.
pub open spec fn str_view(s: Option<&str>) -> Option<Seq<char>> {
    match s {
        Some(s) => Some(s@),
        None => None,
    }
}

/// The format of a file by the extension of its name, and by its first bytes
/// where two formats share the extension.
pub open spec fn detected_format(extension: Option<Seq<char>>, bytes: Seq<u8>) -> Option<
    SubtitleFormat,
> {
    match extension {
        None => None,
        Some(ext) => if ext == "srt"@ {
            Some(SubtitleFormat::SubRip)
        } else if ext == "ssa"@ || ext == "ass"@ {
            Some(SubtitleFormat::SubStationAlpha)
        } else if ext == "idx"@ {
            Some(SubtitleFormat::VobSubIdx)
        } else if ext == "sub"@ {
            if bytes.len() >= 4 && bytes.take(4) == seq![0u8, 0u8, 1u8, 0xbau8] {
                Some(SubtitleFormat::VobSubSub)
            } else {
                Some(SubtitleFormat::MicroDVD)
            }
        } else {
            None
        },
    }
}

/// `subparse::get_subtitle_format`: the format by the extension and, for
/// `sub`, by whether the content begins with the mark of a binary file.
#[verifier::external_body]
pub(crate) fn detect_format(extension: Option<&str>, bytes: &[u8]) -> (r: Option<SubtitleFormat>)
    ensures
        r == detected_format(str_view(extension), bytes@),
{
    subparse::get_subtitle_format(extension.map(|e| e.as_ref()), bytes).map(
        |f| match f {
            subparse::SubtitleFormat::SubRip => SubtitleFormat::SubRip,
            subparse::SubtitleFormat::SubStationAlpha => SubtitleFormat::SubStationAlpha,
            subparse::SubtitleFormat::VobSubIdx => SubtitleFormat::VobSubIdx,
            subparse::SubtitleFormat::VobSubSub => SubtitleFormat::VobSubSub,
            subparse::SubtitleFormat::MicroDVD => SubtitleFormat::MicroDVD,
        },
    )
}

/// The message of the error for a format that is not known.
pub open spec fn unknown_format_message() -> Seq<char> {
    "unknown file format, only SubRip (.srt), SubStationAlpha (.ssa/.ass) and VobSub (.idx and .sub) are supported at the moment"@
}

/// `subparse::get_subtitle_format_err`: like `detect_format`, with an error
/// in place of nothing.
#[verifier::external_body]
pub(crate) fn detect_format_or_err(extension: &str, bytes: &[u8]) -> (r: Result<
    SubtitleFormat,
    String,
>)
    ensures
        r matches Ok(f) ==> detected_format(Some(extension@), bytes@) == Some(f),
        r matches Err(e) ==> detected_format(Some(extension@), bytes@) is None && e@
            == unknown_format_message(),
{
    match subparse::get_subtitle_format_err(Some(extension.as_ref()), bytes) {
        Ok(subparse::SubtitleFormat::SubRip) => Ok(SubtitleFormat::SubRip),
        Ok(subparse::SubtitleFormat::SubStationAlpha) => Ok(SubtitleFormat::SubStationAlpha),
        Ok(subparse::SubtitleFormat::VobSubIdx) => Ok(SubtitleFormat::VobSubIdx),
        Ok(subparse::SubtitleFormat::VobSubSub) => Ok(SubtitleFormat::VobSubSub),
        Ok(subparse::SubtitleFormat::MicroDVD) => Ok(SubtitleFormat::MicroDVD),
        Err(e) => Err(e.to_string()),
    }
}

} // verus!
