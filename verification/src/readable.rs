//! Which bytes the subtitle parser can be handed.
//!
//! The parser of the `subparse` crate reports most faults of a file as an
//! error, but not all. It stops the program on a numeral that no 64-bit
//! integer holds, on a time whose milliseconds none holds, on an indented
//! `Format:` line among the events of a SubStation Alpha file, and, while it
//! guesses the encoding, on an escape byte in plain ASCII text that begins no
//! escape sequence that it knows. It takes a `Dialogue:` line that ends before its
//! times, only to stop the program when the entries are asked for. [`readable`]
//! holds of bytes in which none of this occurs where the parser gets to it.
//!
//! The parser gets to a line only while no line before has been an error, and
//! it looks for numerals only in certain places: in the line after a number
//! line of a SubRip file, in the times of `Dialogue:` lines, after `timestamp:`
//! and in the frame numbers of a MicroDVD file. [`readable`] follows it there.
//! Where the encoding is certain it asks no more than that. Where it is not, and
//! characters that are not ASCII leave open what a line is, it has to hold
//! whichever way the line is taken.

use crate::encoding::{
    begins_with, find_high, guess, guess_of, has_foreign, has_high, is_foreign, read_text,
    starts_at, text_of, Guess,
};
use crate::scan::{
    clock_at, cut, cut_at, is_digit, is_integer, is_space, numeral_at, read_clock, read_numeral,
    skip, skip_run, test_integer, test_kind, texts, trim, trimmed, Clock, ClockRead, Kind, Scan,
    Scanned, Style,
};
use crate::subtitle_file::SubtitleFormat;
use vstd::prelude::*;

verus! {

/// What becomes of the parser at a line.
#[derive(Clone, Copy, Debug, PartialEq, Eq, Structural)]
pub enum Outcome {
    /// It stops the program.
    Breaks,
    /// It reports an error, and looks at no other line.
    Fails,
    /// It goes on, but has taken something with which the entries cannot be
    /// listed.
    Lacks,
    /// It goes on.
    GoesOn,
}

/// Whether the character at `i` is white space, or may be a part of white
/// space that is not ASCII.
pub open spec fn may_be_space(line: Seq<u8>, i: int) -> bool {
    is_space(line[i]) || is_foreign(line[i]) || (i > 0 && is_foreign(line[i - 1]))
}

// ---------------------------------------------------------------------------
// SubRip
// ---------------------------------------------------------------------------

/// What a line of a SubRip file follows.
pub enum Stage {
    /// An empty line, or nothing.
    Gap,
    /// The number of an entry.
    Number,
    /// The times of an entry, or its text.
    Body,
}

/// Whether a line holds white space only.
pub open spec fn is_empty_line(line: Seq<u8>) -> bool {
    forall|i: int| 0 <= i < line.len() ==> is_space(#[trigger] line[i])
}

/// Whether a line may turn out to hold white space only.
pub open spec fn may_be_empty_line(line: Seq<u8>) -> bool {
    forall|i: int| 0 <= i < line.len() ==> #[trigger] may_be_space(line, i)
}

/// Whether a character may stand in a number line.
pub open spec fn may_be_in_number(line: Seq<u8>, i: int) -> bool {
    may_be_space(line, i) || is_digit(line[i]) || line[i] == 0x2b || line[i] == 0x2d
}

/// Whether a line is, or may turn out to be, the number of an entry.
pub open spec fn may_be_number_line(line: Seq<u8>) -> bool {
    if has_foreign(line) {
        forall|i: int| 0 <= i < line.len() ==> #[trigger] may_be_in_number(line, i)
    } else {
        is_integer(trimmed(line))
    }
}

/// The line without the carriage return at its end.
pub open spec fn without_return(line: Seq<u8>) -> Seq<u8> {
    if line.len() > 0 && line.last() == 0x0d {
        line.drop_last()
    } else {
        line
    }
}

/// The outcome at the line of times of an entry, `start --> end`.
pub open spec fn times_line(line: Seq<u8>) -> Outcome {
    match clock_at(line, skip(line, 0, Kind::Blank), Style::Comma) {
        Clock::Mismatch => Outcome::Fails,
        Clock::TooLarge => Outcome::Breaks,
        Clock::Read { fits, end, .. } => {
            let at = skip(line, end, Kind::Blank);
            if !fits {
                Outcome::Breaks
            } else if begins_with(line.skip(at), seq![0x2du8, 0x2du8, 0x3eu8]) {
                end_time(line, skip(line, at + 3, Kind::Blank))
            } else {
                Outcome::Fails
            }
        },
    }
}

/// The outcome at the end time of an entry, which ends its line.
pub open spec fn end_time(line: Seq<u8>, i: int) -> Outcome {
    match clock_at(line, i, Style::Comma) {
        Clock::Mismatch => Outcome::Fails,
        Clock::TooLarge => Outcome::Breaks,
        Clock::Read { fits, end, .. } => if !fits {
            Outcome::Breaks
        } else if skip(line, end, Kind::Blank) == line.len() {
            Outcome::GoesOn
        } else {
            Outcome::Fails
        },
    }
}

/// Whether the lines of a SubRip file from `i` on can be read.
pub open spec fn subrip_from(lines: Seq<Seq<u8>>, i: int, stage: Stage) -> bool
    decreases lines.len() - i,
{
    if i < 0 || i >= lines.len() {
        true
    } else {
        let line = lines[i];
        match stage {
            Stage::Gap => {
                &&& may_be_empty_line(line) ==> subrip_from(lines, i + 1, Stage::Gap)
                &&& may_be_number_line(line) ==> subrip_from(lines, i + 1, Stage::Number)
            },
            Stage::Number => match times_line(without_return(line)) {
                Outcome::Breaks => false,
                Outcome::Fails => true,
                _ => subrip_from(lines, i + 1, Stage::Body),
            },
            Stage::Body => {
                &&& may_be_empty_line(line) ==> subrip_from(lines, i + 1, Stage::Gap)
                &&& !is_empty_line(line) ==> subrip_from(lines, i + 1, Stage::Body)
            },
        }
    }
}

// ---------------------------------------------------------------------------
// SubStation Alpha
// ---------------------------------------------------------------------------

/// `[Events]`
pub open spec fn events_header() -> Seq<u8> {
    seq![0x5bu8, 0x45u8, 0x76u8, 0x65u8, 0x6eu8, 0x74u8, 0x73u8, 0x5du8]
}

/// `Format:`
pub open spec fn format_word() -> Seq<u8> {
    seq![0x46u8, 0x6fu8, 0x72u8, 0x6du8, 0x61u8, 0x74u8, 0x3au8]
}

/// `Dialogue:`
pub open spec fn dialogue_word() -> Seq<u8> {
    seq![0x44u8, 0x69u8, 0x61u8, 0x6cu8, 0x6fu8, 0x67u8, 0x75u8, 0x65u8, 0x3au8]
}

/// `Start`
pub open spec fn start_name() -> Seq<u8> {
    seq![0x53u8, 0x74u8, 0x61u8, 0x72u8, 0x74u8]
}

/// `End`
pub open spec fn end_name() -> Seq<u8> {
    seq![0x45u8, 0x6eu8, 0x64u8]
}

/// `Text`
pub open spec fn text_name() -> Seq<u8> {
    seq![0x54u8, 0x65u8, 0x78u8, 0x74u8]
}

/// Whether a line of ASCII is the header of a section.
pub open spec fn is_header(line: Seq<u8>) -> bool {
    let text = trimmed(line);
    text.len() >= 2 && text[0] == 0x5b && text.last() == 0x5d
}

/// Whether a line that is not all ASCII may turn out to be the header of a
/// section.
pub open spec fn may_be_header(line: Seq<u8>) -> bool {
    let at = skip(line, 0, Kind::Space);
    has_foreign(line) && at < line.len() && (line[at] == 0x5b || is_foreign(line[at]))
}

/// Whether a line is, or may turn out to be, the header of the events.
pub open spec fn may_enter(line: Seq<u8>) -> bool {
    if has_foreign(line) {
        may_be_header(line)
    } else {
        trimmed(line) == events_header()
    }
}

/// Whether a line is, or may turn out to be, the header of something else.
pub open spec fn may_leave(line: Seq<u8>) -> bool {
    if has_foreign(line) {
        may_be_header(line)
    } else {
        is_header(line) && trimmed(line) != events_header()
    }
}

/// Whether a line is, or may turn out to be, no header.
pub open spec fn may_stay(line: Seq<u8>) -> bool {
    has_foreign(line) || !is_header(line)
}

/// Whether `Format:` follows white space, or what may turn out to be white
/// space, at the start of a line.
pub open spec fn format_indented(line: Seq<u8>) -> bool {
    exists|k: int|
        0 < k <= line.len() && begins_with(#[trigger] line.skip(k), format_word()) && forall|m: int|
            0 <= m < k ==> #[trigger] may_be_space(line, m)
}

/// Whether a field of a `Format:` line has the given name.
pub open spec fn is_named(field: Seq<u8>, name: Seq<u8>) -> bool {
    !has_foreign(field) && trimmed(field) == name
}

/// Whether a field of a `Format:` line has the given name, or may turn out to
/// have it.
pub open spec fn may_be_named(field: Seq<u8>, name: Seq<u8>) -> bool {
    has_foreign(field) || trimmed(field) == name
}

/// Whether the field at `i` is, or may turn out to be, the only one of the name.
pub open spec fn may_be_only(fields: Seq<Seq<u8>>, i: int, name: Seq<u8>) -> bool {
    &&& 0 <= i < fields.len()
    &&& may_be_named(fields[i], name)
    &&& forall|k: int| 0 <= k < fields.len() && k != i ==> !is_named(#[trigger] fields[k], name)
}

/// Whether these fields are, or may turn out to be, a layout with the start
/// times in field `start`, the end times in field `end` and the text at last.
pub open spec fn may_be_layout(fields: Seq<Seq<u8>>, start: int, end: int) -> bool {
    &&& may_be_only(fields, start, start_name())
    &&& may_be_only(fields, end, end_name())
    &&& may_be_only(fields, fields.len() - 1, text_name())
    &&& start != end && start < fields.len() - 1 && end < fields.len() - 1
}

/// How many fields a line of dialogue has, and which of them are its times.
pub struct Layout {
    pub n: int,
    pub start: int,
    pub end: int,
}

/// The fields of a `Format:` line.
pub open spec fn format_fields(line: Seq<u8>) -> Seq<Seq<u8>> {
    cut(line.skip(format_word().len() as int), seq![0x2cu8])
}

/// Whether a line is one of dialogue.
pub open spec fn is_dialogue(line: Seq<u8>) -> bool {
    begins_with(line.skip(skip(line, 0, Kind::Space)), dialogue_word())
}

/// The fields of a line of dialogue.
pub open spec fn dialogue_fields(line: Seq<u8>) -> Seq<Seq<u8>> {
    let at = skip(line, 0, Kind::Blank) + dialogue_word().len();
    cut(line.skip(skip(line, at, Kind::Blank)), seq![0x2cu8])
}

/// The outcome at the time in field `i`, of which the first `count` are there.
pub open spec fn time_field(fields: Seq<Seq<u8>>, i: int, count: int) -> Outcome {
    if i >= count {
        Outcome::Lacks
    } else {
        let field = fields[i];
        match clock_at(field, skip(field, 0, Kind::Blank), Style::Stop) {
            Clock::Mismatch => Outcome::Fails,
            Clock::TooLarge => Outcome::Breaks,
            Clock::Read { fits, usable, end } => if skip(field, end, Kind::Blank) != field.len() {
                Outcome::Fails
            } else if fits && usable {
                Outcome::GoesOn
            } else {
                Outcome::Breaks
            },
        }
    }
}

/// The outcome at a line of dialogue in a layout of `n` fields. A line with
/// too few fields is an error, unless nothing follows its last comma. Only
/// spaces and tabs may come before it.
pub open spec fn dialogue_line(line: Seq<u8>, n: int, start: int, end: int) -> Outcome {
    let fields = dialogue_fields(line);
    let commas = fields.len() - 1;
    let count = if commas < n - 1 {
        commas
    } else {
        n - 1
    };
    let (first, second) = if start < end {
        (start, end)
    } else {
        (end, start)
    };
    if !begins_with(line.skip(skip(line, 0, Kind::Blank)), dialogue_word()) {
        Outcome::Fails
    } else if commas < n - 1 && fields.last().len() > 0 {
        Outcome::Fails
    } else {
        match time_field(fields, first, count) {
            Outcome::GoesOn => time_field(fields, second, count),
            outcome => outcome,
        }
    }
}

/// Whether the lines of dialogue from line `i` on can be read; `inside` tells
/// whether line `i` stands among the events, and `whole` whether every line of
/// dialogue before it has its times.
pub open spec fn dialogue_from(
    lines: Seq<Seq<u8>>,
    i: int,
    inside: bool,
    whole: bool,
    layout: Layout,
) -> bool
    decreases lines.len() - i,
{
    if i < 0 || i >= lines.len() {
        whole
    } else {
        let line = lines[i];
        &&& may_enter(line) ==> dialogue_from(lines, i + 1, true, whole, layout)
        &&& may_leave(line) ==> dialogue_from(lines, i + 1, false, whole, layout)
        &&& may_stay(line) ==> if inside && is_dialogue(line) {
            match dialogue_line(line, layout.n, layout.start, layout.end) {
                Outcome::Breaks => false,
                Outcome::Fails => true,
                Outcome::Lacks => dialogue_from(lines, i + 1, inside, false, layout),
                Outcome::GoesOn => dialogue_from(lines, i + 1, inside, whole, layout),
            }
        } else {
            dialogue_from(lines, i + 1, inside, whole, layout)
        }
    }
}

/// Whether the dialogue can be read in every layout that a `Format:` line may
/// turn out to give.
pub open spec fn dialogue_readable(line: Seq<u8>, dialogue: Seq<Seq<u8>>) -> bool {
    forall|start: int, end: int| #[trigger]
        may_be_layout(format_fields(line), start, end) ==> dialogue_from(
            dialogue,
            0,
            false,
            true,
            Layout { n: format_fields(line).len() as int, start, end },
        )
}

/// Whether the first `Format:` line among the events, from line `i` on, stands
/// at the start of its line and gives a layout in which the dialogue can be
/// read; `inside` tells whether line `i` stands among the events.
pub open spec fn format_from(
    lines: Seq<Seq<u8>>,
    i: int,
    inside: bool,
    dialogue: Seq<Seq<u8>>,
) -> bool
    decreases lines.len() - i,
{
    if i < 0 || i >= lines.len() {
        true
    } else {
        let line = lines[i];
        &&& may_enter(line) ==> format_from(lines, i + 1, true, dialogue)
        &&& may_leave(line) ==> format_from(lines, i + 1, false, dialogue)
        &&& may_stay(line) ==> if !inside {
            format_from(lines, i + 1, false, dialogue)
        } else if begins_with(line, format_word()) {
            dialogue_readable(line, dialogue)
        } else {
            !format_indented(line) && format_from(lines, i + 1, true, dialogue)
        }
    }
}

// ---------------------------------------------------------------------------
// MicroDVD and VobSub
// ---------------------------------------------------------------------------

/// The outcome at a line of a MicroDVD file, `{first frame}{last frame}text`.
pub open spec fn frames_line(line: Seq<u8>) -> Outcome {
    if line.len() == 0 || line[0] != 0x7b {
        Outcome::Fails
    } else {
        match numeral_at(line, 1) {
            Scan::Mismatch => Outcome::Fails,
            Scan::TooLarge => Outcome::Breaks,
            Scan::Read { value, end } => if begins_with(line.skip(end), seq![0x7du8, 0x7bu8]) {
                last_frame(line, end + 2)
            } else {
                Outcome::Fails
            },
        }
    }
}

/// The outcome at the second frame number of a line.
pub open spec fn last_frame(line: Seq<u8>, i: int) -> Outcome {
    match numeral_at(line, i) {
        Scan::Mismatch => Outcome::Fails,
        Scan::TooLarge => Outcome::Breaks,
        Scan::Read { value, end } => if end < line.len() && line[end] == 0x7d && (has_foreign(line)
            || braces_close(line, end + 1)) {
            Outcome::GoesOn
        } else {
            Outcome::Fails
        },
    }
}

/// Where the next of the given characters stands, from `i` on; the end of the
/// line if there is none.
pub open spec fn next_of(line: Seq<u8>, i: int, b: u8) -> int
    decreases line.len() - i,
{
    if 0 <= i < line.len() && line[i] != b {
        next_of(line, i + 1, b)
    } else {
        i
    }
}

/// Whether every brace that opens at `i`, after a brace that closes or after a
/// vertical bar, closes again.
pub open spec fn braces_close(line: Seq<u8>, i: int) -> bool
    decreases line.len() - i,
{
    if i < 0 || i >= line.len() {
        true
    } else if line[i] == 0x7b {
        let j = next_of(line, i + 1, 0x7d);
        i < j < line.len() && braces_close(line, j + 1)
    } else {
        let j = next_of(line, i, 0x7c);
        i <= j < line.len() ==> braces_close(line, j + 1)
    }
}

/// `timestamp:`
pub open spec fn timestamp_word() -> Seq<u8> {
    seq![0x74u8, 0x69u8, 0x6du8, 0x65u8, 0x73u8, 0x74u8, 0x61u8, 0x6du8, 0x70u8, 0x3au8]
}

/// Whether a line of a VobSub index is one with a time.
pub open spec fn is_timestamp(line: Seq<u8>) -> bool {
    begins_with(line.skip(skip(line, 0, Kind::Space)), timestamp_word())
}

/// The outcome at a line of a VobSub index with a time. Only spaces and tabs
/// may come before it. If it is the last one, a minute is added to the time.
pub open spec fn timestamp_line(line: Seq<u8>) -> Outcome {
    let at = skip(line, 0, Kind::Blank);
    if begins_with(line.skip(at), timestamp_word()) {
        let first = skip(line, at + timestamp_word().len(), Kind::Blank);
        let time = line.subrange(first, skip(line, first, Kind::Clock));
        match clock_at(time, 0, Style::Colon) {
            Clock::Mismatch => Outcome::Fails,
            Clock::TooLarge => Outcome::Breaks,
            Clock::Read { fits, usable, end } => if end != time.len() {
                Outcome::Fails
            } else if !fits {
                Outcome::Breaks
            } else if !usable {
                Outcome::Lacks
            } else {
                Outcome::GoesOn
            },
        }
    } else {
        Outcome::Fails
    }
}

/// Whether the lines of a VobSub index can be read from `i` on; `whole` tells
/// whether the entries could be listed if there were no more times.
pub open spec fn index_from(lines: Seq<Seq<u8>>, i: int, whole: bool) -> bool
    decreases lines.len() - i,
{
    if i < 0 || i >= lines.len() {
        whole
    } else if is_timestamp(lines[i]) {
        match timestamp_line(lines[i]) {
            Outcome::Breaks => false,
            Outcome::Fails => true,
            Outcome::Lacks => index_from(lines, i + 1, false),
            Outcome::GoesOn => index_from(lines, i + 1, true),
        }
    } else {
        index_from(lines, i + 1, whole)
    }
}

/// Whether the lines of a MicroDVD file can be read from `i` on.
pub open spec fn frames_from(lines: Seq<Seq<u8>>, i: int) -> bool
    decreases lines.len() - i,
{
    if i < 0 || i >= lines.len() {
        true
    } else {
        match frames_line(lines[i]) {
            Outcome::Breaks => false,
            Outcome::Fails => true,
            _ => frames_from(lines, i + 1),
        }
    }
}

// ---------------------------------------------------------------------------
// All formats
// ---------------------------------------------------------------------------

/// The lines of a text, which line feeds end.
pub open spec fn lines_of(text: Seq<u8>) -> Seq<Seq<u8>> {
    cut(text, seq![0x0au8])
}

/// The lines of a text, which line feeds and carriage returns end.
pub open spec fn short_lines_of(text: Seq<u8>) -> Seq<Seq<u8>> {
    cut(text, seq![0x0au8, 0x0du8])
}

/// Whether the parser for the format can be handed the text.
pub open spec fn text_readable(format: SubtitleFormat, text: Seq<u8>) -> bool {
    match format {
        SubtitleFormat::SubRip => subrip_from(lines_of(text), 0, Stage::Gap),
        SubtitleFormat::SubStationAlpha => format_from(
            lines_of(text),
            0,
            false,
            short_lines_of(text),
        ),
        SubtitleFormat::VobSubIdx => index_from(short_lines_of(text), 0, true),
        SubtitleFormat::VobSubSub => true,
        SubtitleFormat::MicroDVD => frames_from(lines_of(text), 0),
    }
}

/// Whether the parser for the format can be handed these bytes. A binary file
/// it takes whatever it holds.
pub open spec fn readable(format: SubtitleFormat, bytes: Seq<u8>) -> bool {
    format is VobSubSub || {
        &&& has_high(bytes) || !(guess_of(bytes) is Stuck)
        &&& text_readable(format, text_of(bytes))
    }
}

// ---------------------------------------------------------------------------
// The test of a line
// ---------------------------------------------------------------------------

/// Whether some character is not ASCII.
fn find_foreign(line: &[u8]) -> (r: bool)
    ensures
        r == has_foreign(line@),
{
    let mut i: usize = 0;
    while i < line.len()
        invariant
            i <= line@.len(),
            forall|k: int| 0 <= k < i ==> !is_foreign(#[trigger] line@[k]),
        decreases line@.len() - i,
    {
        if line[i] >= 0x80 {
            assert(is_foreign(line@[i as int]));
            return true;
        }
        i = i + 1;
    }
    false
}

/// Whether the character at `i` is white space, or may be a part of it.
fn test_space(line: &[u8], i: usize) -> (r: bool)
    requires
        i < line@.len(),
    ensures
        r == may_be_space(line@, i as int),
{
    test_kind(Kind::Space, line[i]) || line[i] >= 0x80 || (i > 0 && line[i - 1] >= 0x80)
}

/// Whether a line holds white space only.
fn test_empty(line: &[u8]) -> (r: bool)
    ensures
        r == is_empty_line(line@),
{
    let mut i: usize = 0;
    while i < line.len()
        invariant
            i <= line@.len(),
            forall|k: int| 0 <= k < i ==> is_space(#[trigger] line@[k]),
        decreases line@.len() - i,
    {
        if !test_kind(Kind::Space, line[i]) {
            assert(!is_space(line@[i as int]));
            return false;
        }
        i = i + 1;
    }
    true
}

/// Whether a line may turn out to hold white space only.
fn test_may_be_empty(line: &[u8]) -> (r: bool)
    ensures
        r == may_be_empty_line(line@),
{
    let mut i: usize = 0;
    while i < line.len()
        invariant
            i <= line@.len(),
            forall|k: int| 0 <= k < i ==> #[trigger] may_be_space(line@, k),
        decreases line@.len() - i,
    {
        if !test_space(line, i) {
            assert(!may_be_space(line@, i as int));
            return false;
        }
        i = i + 1;
    }
    true
}

/// Whether a line is, or may turn out to be, the number of an entry.
fn test_number_line(line: &[u8]) -> (r: bool)
    ensures
        r == may_be_number_line(line@),
{
    if !find_foreign(line) {
        let text: Vec<u8> = trim(line);
        return test_integer(&text);
    }
    let mut i: usize = 0;
    while i < line.len()
        invariant
            i <= line@.len(),
            has_foreign(line@),
            forall|k: int| 0 <= k < i ==> #[trigger] may_be_in_number(line@, k),
        decreases line@.len() - i,
    {
        if !(test_space(line, i) || test_kind(Kind::Digit, line[i]) || line[i] == 0x2b || line[i]
            == 0x2d) {
            assert(!may_be_in_number(line@, i as int));
            return false;
        }
        i = i + 1;
    }
    true
}

/// The outcome at the end time of an entry.
fn test_end_time(line: &[u8], i: usize) -> (r: Outcome)
    requires
        i <= line@.len(),
    ensures
        r == end_time(line@, i as int),
{
    match read_clock(line, i, Style::Comma) {
        ClockRead::Mismatch => Outcome::Fails,
        ClockRead::TooLarge => Outcome::Breaks,
        ClockRead::Read { fits, end, .. } => if !fits {
            Outcome::Breaks
        } else if skip_run(line, end, Kind::Blank) == line.len() {
            Outcome::GoesOn
        } else {
            Outcome::Fails
        },
    }
}

/// The outcome at the line of times of an entry.
fn test_times(line: &[u8]) -> (r: Outcome)
    ensures
        r == times_line(line@),
{
    let first: usize = skip_run(line, 0, Kind::Blank);
    match read_clock(line, first, Style::Comma) {
        ClockRead::Mismatch => Outcome::Fails,
        ClockRead::TooLarge => Outcome::Breaks,
        ClockRead::Read { fits, end, .. } => {
            let arrow: [u8; 3] = [0x2d, 0x2d, 0x3e];
            assert(arrow@ =~= seq![0x2du8, 0x2du8, 0x3eu8]);
            let at: usize = skip_run(line, end, Kind::Blank);
            if !fits {
                Outcome::Breaks
            } else if starts_at(line, at, &arrow) {
                let second: usize = skip_run(line, at + 3, Kind::Blank);
                test_end_time(line, second)
            } else {
                Outcome::Fails
            }
        },
    }
}

/// The outcome at the line of times of an entry, with a carriage return at the
/// end or without.
fn test_times_line(line: &Vec<u8>) -> (r: Outcome)
    ensures
        r == times_line(without_return(line@)),
{
    let n: usize = line.len();
    if n > 0 && line[n - 1] == 0x0d {
        let mut rest: Vec<u8> = Vec::new();
        let mut i: usize = 0;
        while i < n - 1
            invariant
                i < n,
                n == line@.len(),
                rest@ == line@.take(i as int),
            decreases n - i,
        {
            rest.push(line[i]);
            i = i + 1;
        }
        assert(rest@ =~= line@.drop_last());
        test_times(&rest)
    } else {
        test_times(line)
    }
}

/// Whether the lines of a SubRip file can be read.
fn check_subrip(lines: &Vec<Vec<u8>>) -> (r: bool)
    ensures
        r == subrip_from(texts(lines@), 0, Stage::Gap),
{
    let ghost all = texts(lines@);
    let mut gap: bool = true;
    let mut number: bool = false;
    let mut body: bool = false;
    let mut i: usize = 0;
    while i < lines.len()
        invariant
            i <= lines@.len(),
            all == texts(lines@),
            subrip_from(all, 0, Stage::Gap) == ((gap ==> subrip_from(all, i as int, Stage::Gap))
                && (number ==> subrip_from(all, i as int, Stage::Number)) && (body ==> subrip_from(
                all,
                i as int,
                Stage::Body,
            ))),
        decreases lines@.len() - i,
    {
        let line: &Vec<u8> = &lines[i];
        assert(all[i as int] == line@);
        let may_be_empty: bool = test_may_be_empty(line);
        let empty: bool = test_empty(line);
        let numbered: bool = gap && test_number_line(line);
        let timed: Outcome = if number {
            test_times_line(line)
        } else {
            Outcome::Fails
        };
        if timed == Outcome::Breaks {
            return false;
        }
        let next_body: bool = (body && !empty) || (number && timed != Outcome::Fails);
        gap = (gap || body) && may_be_empty;
        number = numbered;
        body = next_body;
        i = i + 1;
    }
    true
}

// ---------------------------------------------------------------------------
// The test of a SubStation Alpha file
// ---------------------------------------------------------------------------

/// What a line may turn out to be as the header of a section.
struct Turns {
    enter: bool,
    leave: bool,
    stay: bool,
}

/// What a line may turn out to be as the header of a section.
fn test_header(line: &[u8]) -> (r: Turns)
    ensures
        r.enter == may_enter(line@),
        r.leave == may_leave(line@),
        r.stay == may_stay(line@),
{
    if find_foreign(line) {
        let at: usize = skip_run(line, 0, Kind::Space);
        let header: bool = at < line.len() && (line[at] == 0x5b || line[at] >= 0x80);
        Turns { enter: header, leave: header, stay: true }
    } else {
        let text: Vec<u8> = trim(line);
        let n: usize = text.len();
        let header: bool = n >= 2 && text[0] == 0x5b && text[n - 1] == 0x5d;
        let word: [u8; 8] = [0x5b, 0x45, 0x76, 0x65, 0x6e, 0x74, 0x73, 0x5d];
        assert(word@ =~= events_header());
        let events: bool = same(&text, &word);
        Turns { enter: events, leave: header && !events, stay: !header }
    }
}

/// Whether two texts are the same.
fn same(a: &[u8], b: &[u8]) -> (r: bool)
    ensures
        r == (a@ == b@),
{
    assert(a@.skip(0) =~= a@);
    let r: bool = a.len() == b.len() && starts_at(a, 0, b);
    proof {
        if a@.len() == b@.len() {
            assert(a@.take(b@.len() as int) =~= a@);
        }
    }
    r
}

/// Whether `Format:` stands at `i`.
fn test_format_word(line: &[u8], i: usize) -> (r: bool)
    requires
        i <= line@.len(),
    ensures
        r == begins_with(line@.skip(i as int), format_word()),
{
    let word: [u8; 7] = [0x46, 0x6f, 0x72, 0x6d, 0x61, 0x74, 0x3a];
    assert(word@ =~= format_word());
    starts_at(line, i, &word)
}

/// Whether `Format:` follows white space, or what may turn out to be white
/// space.
fn test_indented(line: &[u8]) -> (r: bool)
    ensures
        r == format_indented(line@),
{
    let mut i: usize = 0;
    while i < line.len() && test_space(line, i)
        invariant
            i <= line@.len(),
            forall|m: int| 0 <= m < i ==> #[trigger] may_be_space(line@, m),
            forall|k: int|
                0 < k <= i ==> !begins_with(#[trigger] line@.skip(k), format_word()),
        decreases line@.len() - i,
    {
        i = i + 1;
        if test_format_word(line, i) {
            assert(begins_with(line@.skip(i as int), format_word()));
            return true;
        }
    }
    proof {
        if format_indented(line@) {
            let k = choose|k: int|
                0 < k <= line@.len() && begins_with(#[trigger] line@.skip(k), format_word())
                    && forall|m: int| 0 <= m < k ==> #[trigger] may_be_space(line@, m);
            assert(k > i);
            assert(may_be_space(line@, i as int));
        }
    }
    false
}

/// Whether a field has the name for certain, and whether it may have it.
fn test_name(field: &[u8], name: &[u8]) -> (r: (bool, bool))
    ensures
        r.0 == is_named(field@, name@),
        r.1 == may_be_named(field@, name@),
{
    if find_foreign(field) {
        (false, true)
    } else {
        let text: Vec<u8> = trim(field);
        let named: bool = same(&text, name);
        (named, named)
    }
}

/// Whether the field at `i` is, or may turn out to be, the only one of the name.
fn test_only(fields: &Vec<Vec<u8>>, i: usize, name: &[u8]) -> (r: bool)
    requires
        i < fields@.len(),
    ensures
        r == may_be_only(texts(fields@), i as int, name@),
{
    let ghost all = texts(fields@);
    assert(all[i as int] == fields@[i as int]@);
    if !test_name(&fields[i], name).1 {
        return false;
    }
    let mut k: usize = 0;
    while k < fields.len()
        invariant
            k <= fields@.len(),
            i < fields@.len(),
            all == texts(fields@),
            forall|m: int| 0 <= m < k && m != i ==> !is_named(#[trigger] all[m], name@),
        decreases fields@.len() - k,
    {
        assert(all[k as int] == fields@[k as int]@);
        if k != i && test_name(&fields[k], name).0 {
            return false;
        }
        k = k + 1;
    }
    true
}

/// Whether a line is one of dialogue.
fn test_dialogue(line: &[u8]) -> (r: bool)
    ensures
        r == is_dialogue(line@),
{
    let word: [u8; 9] = [0x44, 0x69, 0x61, 0x6c, 0x6f, 0x67, 0x75, 0x65, 0x3a];
    assert(word@ =~= dialogue_word());
    let at: usize = skip_run(line, 0, Kind::Space);
    starts_at(line, at, &word)
}

/// The line from `i` on, cut at its commas.
fn cut_rest(line: &[u8], i: usize) -> (r: Vec<Vec<u8>>)
    requires
        i <= line@.len(),
    ensures
        texts(r@) == cut(line@.skip(i as int), seq![0x2cu8]),
        r@.len() > 0,
{
    let mut rest: Vec<u8> = Vec::new();
    let mut k: usize = i;
    while k < line.len()
        invariant
            i <= k <= line@.len(),
            rest@ == line@.subrange(i as int, k as int),
        decreases line@.len() - k,
    {
        rest.push(line[k]);
        k = k + 1;
    }
    assert(rest@ =~= line@.skip(i as int));
    let comma: [u8; 1] = [0x2c];
    assert(comma@ =~= seq![0x2cu8]);
    cut_at(&rest, &comma)
}

/// The outcome at the time in field `i`, of which the first `count` are there.
fn test_time_field(fields: &Vec<Vec<u8>>, i: usize, count: usize) -> (r: Outcome)
    requires
        count <= fields@.len(),
    ensures
        r == time_field(texts(fields@), i as int, count as int),
{
    if i >= count {
        return Outcome::Lacks;
    }
    let field: &Vec<u8> = &fields[i];
    assert(texts(fields@)[i as int] == field@);
    let first: usize = skip_run(field, 0, Kind::Blank);
    match read_clock(field, first, Style::Stop) {
        ClockRead::Mismatch => Outcome::Fails,
        ClockRead::TooLarge => Outcome::Breaks,
        ClockRead::Read { fits, usable, end } => if skip_run(field, end, Kind::Blank)
            != field.len() {
            Outcome::Fails
        } else if fits && usable {
            Outcome::GoesOn
        } else {
            Outcome::Breaks
        },
    }
}

/// The outcome at a line of dialogue in a layout of `n` fields.
fn test_dialogue_line(line: &[u8], n: usize, start: usize, end: usize) -> (r: Outcome)
    requires
        n > 0,
    ensures
        r == dialogue_line(line@, n as int, start as int, end as int),
{
    let word: [u8; 9] = [0x44, 0x69, 0x61, 0x6c, 0x6f, 0x67, 0x75, 0x65, 0x3a];
    assert(word@ =~= dialogue_word());
    let at: usize = skip_run(line, 0, Kind::Blank);
    if !starts_at(line, at, &word) {
        return Outcome::Fails;
    }
    let first_field: usize = skip_run(line, at + 9, Kind::Blank);
    let fields: Vec<Vec<u8>> = cut_rest(line, first_field);
    let commas: usize = fields.len() - 1;
    assert(texts(fields@).last() == fields@[commas as int]@);
    if commas < n - 1 && fields[commas].len() > 0 {
        return Outcome::Fails;
    }
    let count: usize = if commas < n - 1 {
        commas
    } else {
        n - 1
    };
    let (first, second) = if start < end {
        (start, end)
    } else {
        (end, start)
    };
    match test_time_field(&fields, first, count) {
        Outcome::GoesOn => test_time_field(&fields, second, count),
        outcome => outcome,
    }
}

/// Where the parser may be among the lines of a file: among the events or not,
/// with every line of dialogue so far whole or not.
struct Places {
    inside: bool,
    outside: bool,
    inside_lacking: bool,
    outside_lacking: bool,
}

impl Places {
    /// Whether the lines from `i` on can be read from every place.
    spec fn all_read(self, lines: Seq<Seq<u8>>, i: int, layout: Layout) -> bool {
        &&& self.inside ==> dialogue_from(lines, i, true, true, layout)
        &&& self.outside ==> dialogue_from(lines, i, false, true, layout)
        &&& self.inside_lacking ==> dialogue_from(lines, i, true, false, layout)
        &&& self.outside_lacking ==> dialogue_from(lines, i, false, false, layout)
    }
}

/// Whether the lines of dialogue can be read.
fn check_dialogue(lines: &Vec<Vec<u8>>, n: usize, start: usize, end: usize) -> (r: bool)
    requires
        n > 0,
    ensures
        r == dialogue_from(
            texts(lines@),
            0,
            false,
            true,
            (Layout { n: n as int, start: start as int, end: end as int }),
        ),
{
    let ghost all = texts(lines@);
    let ghost layout = Layout { n: n as int, start: start as int, end: end as int };
    let mut at: Places = Places {
        inside: false,
        outside: true,
        inside_lacking: false,
        outside_lacking: false,
    };
    let mut i: usize = 0;
    while i < lines.len()
        invariant
            i <= lines@.len(),
            n > 0,
            all == texts(lines@),
            layout == (Layout { n: n as int, start: start as int, end: end as int }),
            dialogue_from(all, 0, false, true, layout) == at.all_read(all, i as int, layout),
        decreases lines@.len() - i,
    {
        let line: &Vec<u8> = &lines[i];
        assert(all[i as int] == line@);
        let turns: Turns = test_header(line);
        let outcome: Outcome = if (at.inside || at.inside_lacking) && turns.stay && test_dialogue(
            line,
        ) {
            test_dialogue_line(line, n, start, end)
        } else {
            Outcome::GoesOn
        };
        if outcome == Outcome::Breaks {
            return false;
        }
        let goes_on: bool = turns.stay && outcome != Outcome::Fails;
        let lacks: bool = outcome == Outcome::Lacks;
        let whole: bool = at.inside || at.outside;
        let lacking: bool = at.inside_lacking || at.outside_lacking;
        at = Places {
            inside: (whole && turns.enter) || (at.inside && goes_on && !lacks),
            outside: (whole && turns.leave) || (at.outside && turns.stay),
            inside_lacking: (lacking && turns.enter) || (at.inside_lacking && goes_on) || (at.inside
                && goes_on && lacks),
            outside_lacking: (lacking && turns.leave) || (at.outside_lacking && turns.stay),
        };
        i = i + 1;
    }
    !at.inside_lacking && !at.outside_lacking
}

/// Whether the dialogue can be read in every layout that a `Format:` line may
/// turn out to give.
fn check_layouts(line: &[u8], dialogue: &Vec<Vec<u8>>) -> (r: bool)
    requires
        begins_with(line@, format_word()),
    ensures
        r == dialogue_readable(line@, texts(dialogue@)),
{
    let start_word: [u8; 5] = [0x53, 0x74, 0x61, 0x72, 0x74];
    let end_word: [u8; 3] = [0x45, 0x6e, 0x64];
    let text_word: [u8; 4] = [0x54, 0x65, 0x78, 0x74];
    assert(start_word@ =~= start_name());
    assert(end_word@ =~= end_name());
    assert(text_word@ =~= text_name());
    let fields: Vec<Vec<u8>> = cut_rest(line, 7);
    let ghost all = texts(fields@);
    let n: usize = fields.len();
    if !test_only(&fields, n - 1, &text_word) {
        return true;
    }
    let mut start: usize = 0;
    while start < n - 1
        invariant
            n == fields@.len(),
            0 < n,
            start <= n - 1,
            all == texts(fields@),
            all == format_fields(line@),
            start_word@ == start_name(),
            end_word@ == end_name(),
            may_be_only(all, n - 1, text_name()),
            forall|s: int, e: int|
                s < start && #[trigger] may_be_layout(all, s, e) ==> dialogue_from(
                    texts(dialogue@),
                    0,
                    false,
                    true,
                    (Layout { n: n as int, start: s, end: e }),
                ),
        decreases n - start,
    {
        if test_only(&fields, start, &start_word) {
            let mut end: usize = 0;
            while end < n - 1
                invariant
                    n == fields@.len(),
                    start < n - 1,
                    end <= n - 1,
                    all == texts(fields@),
                    all == format_fields(line@),
                    end_word@ == end_name(),
                    may_be_only(all, n - 1, text_name()),
                    may_be_only(all, start as int, start_name()),
                    forall|e: int|
                        e < end && #[trigger] may_be_layout(all, start as int, e) ==> dialogue_from(
                            texts(dialogue@),
                            0,
                            false,
                            true,
                            (Layout { n: n as int, start: start as int, end: e }),
                        ),
                decreases n - end,
            {
                if end != start && test_only(&fields, end, &end_word) {
                    assert(may_be_layout(all, start as int, end as int));
                    if !check_dialogue(dialogue, n, start, end) {
                        return false;
                    }
                }
                end = end + 1;
            }
        }
        start = start + 1;
    }
    true
}

/// Whether the first `Format:` line among the events, and the dialogue, can be
/// read.
fn check_events(lines: &Vec<Vec<u8>>, dialogue: &Vec<Vec<u8>>) -> (r: bool)
    ensures
        r == format_from(texts(lines@), 0, false, texts(dialogue@)),
{
    let ghost all = texts(lines@);
    let ghost rest = texts(dialogue@);
    let mut inside: bool = false;
    let mut outside: bool = true;
    let mut i: usize = 0;
    while i < lines.len()
        invariant
            i <= lines@.len(),
            all == texts(lines@),
            rest == texts(dialogue@),
            format_from(all, 0, false, rest) == ((inside ==> format_from(
                all,
                i as int,
                true,
                rest,
            )) && (outside ==> format_from(all, i as int, false, rest))),
        decreases lines@.len() - i,
    {
        let line: &Vec<u8> = &lines[i];
        assert(all[i as int] == line@);
        assert(line@.skip(0) =~= line@);
        let turns: Turns = test_header(line);
        let known: bool = inside || outside;
        let mut goes_on: bool = true;
        if inside && turns.stay {
            if test_format_word(line, 0) {
                if !check_layouts(line, dialogue) {
                    return false;
                }
                goes_on = false;
            } else if test_indented(line) {
                return false;
            }
        }
        inside = (known && turns.enter) || (inside && turns.stay && goes_on);
        outside = (known && turns.leave) || (outside && turns.stay);
        i = i + 1;
    }
    true
}

// ---------------------------------------------------------------------------
// The test of the other formats
// ---------------------------------------------------------------------------

/// Where the next of the given characters stands.
fn find_next(line: &[u8], i: usize, b: u8) -> (r: usize)
    requires
        i <= line@.len(),
    ensures
        i <= r <= line@.len(),
        r == next_of(line@, i as int, b),
{
    let mut j: usize = i;
    while j < line.len() && line[j] != b
        invariant
            i <= j <= line@.len(),
            next_of(line@, j as int, b) == next_of(line@, i as int, b),
        decreases line@.len() - j,
    {
        j = j + 1;
    }
    j
}

/// Whether every brace that opens closes again.
fn test_braces(line: &[u8], i: usize) -> (r: bool)
    requires
        i <= line@.len(),
    ensures
        r == braces_close(line@, i as int),
{
    let n: usize = line.len();
    let mut at: usize = i;
    while at < n
        invariant
            at <= n,
            n == line@.len(),
            braces_close(line@, at as int) == braces_close(line@, i as int),
        decreases n - at,
    {
        if line[at] == 0x7b {
            let j: usize = find_next(line, at + 1, 0x7d);
            if j == n {
                return false;
            }
            at = j + 1;
        } else {
            let j: usize = find_next(line, at, 0x7c);
            if j == n {
                return true;
            }
            at = j + 1;
        }
    }
    true
}

/// The outcome at a line of a MicroDVD file.
fn test_frames(line: &[u8]) -> (r: Outcome)
    ensures
        r == frames_line(line@),
{
    if line.len() == 0 || line[0] != 0x7b {
        return Outcome::Fails;
    }
    match read_numeral(line, 1) {
        Scanned::Mismatch => Outcome::Fails,
        Scanned::TooLarge => Outcome::Breaks,
        Scanned::Read { end, .. } => {
            let between: [u8; 2] = [0x7d, 0x7b];
            assert(between@ =~= seq![0x7du8, 0x7bu8]);
            if starts_at(line, end, &between) {
                match read_numeral(line, end + 2) {
                    Scanned::Mismatch => Outcome::Fails,
                    Scanned::TooLarge => Outcome::Breaks,
                    Scanned::Read { end, .. } => if end < line.len() && line[end] == 0x7d && (
                    find_foreign(line) || test_braces(line, end + 1)) {
                        Outcome::GoesOn
                    } else {
                        Outcome::Fails
                    },
                }
            } else {
                Outcome::Fails
            }
        },
    }
}

/// The outcome at a line of a VobSub index with a time.
fn test_timestamp(line: &[u8]) -> (r: Outcome)
    ensures
        r == timestamp_line(line@),
{
    let word: [u8; 10] = [0x74, 0x69, 0x6d, 0x65, 0x73, 0x74, 0x61, 0x6d, 0x70, 0x3a];
    assert(word@ =~= timestamp_word());
    let at: usize = skip_run(line, 0, Kind::Blank);
    if !starts_at(line, at, &word) {
        return Outcome::Fails;
    }
    let first: usize = skip_run(line, at + 10, Kind::Blank);
    let last: usize = skip_run(line, first, Kind::Clock);
    let mut time: Vec<u8> = Vec::new();
    let mut i: usize = first;
    while i < last
        invariant
            first <= i <= last <= line@.len(),
            time@ == line@.subrange(first as int, i as int),
        decreases last - i,
    {
        time.push(line[i]);
        i = i + 1;
    }
    match read_clock(&time, 0, Style::Colon) {
        ClockRead::Mismatch => Outcome::Fails,
        ClockRead::TooLarge => Outcome::Breaks,
        ClockRead::Read { fits, usable, end } => if end != time.len() {
            Outcome::Fails
        } else if !fits {
            Outcome::Breaks
        } else if !usable {
            Outcome::Lacks
        } else {
            Outcome::GoesOn
        },
    }
}

/// Whether the lines of a VobSub index can be read.
fn check_index(lines: &Vec<Vec<u8>>) -> (r: bool)
    ensures
        r == index_from(texts(lines@), 0, true),
{
    let word: [u8; 10] = [0x74, 0x69, 0x6d, 0x65, 0x73, 0x74, 0x61, 0x6d, 0x70, 0x3a];
    assert(word@ =~= timestamp_word());
    let mut whole: bool = true;
    let mut i: usize = 0;
    while i < lines.len()
        invariant
            i <= lines@.len(),
            word@ == timestamp_word(),
            index_from(texts(lines@), 0, true) == index_from(texts(lines@), i as int, whole),
        decreases lines@.len() - i,
    {
        let line: &Vec<u8> = &lines[i];
        assert(texts(lines@)[i as int] == line@);
        let at: usize = skip_run(line, 0, Kind::Space);
        if starts_at(line, at, &word) {
            match test_timestamp(line) {
                Outcome::Breaks => {
                    return false;
                },
                Outcome::Fails => {
                    return true;
                },
                Outcome::Lacks => {
                    whole = false;
                },
                Outcome::GoesOn => {
                    whole = true;
                },
            }
        }
        i = i + 1;
    }
    whole
}

/// Whether the lines of a MicroDVD file can be read.
fn check_frames(lines: &Vec<Vec<u8>>) -> (r: bool)
    ensures
        r == frames_from(texts(lines@), 0),
{
    let mut i: usize = 0;
    while i < lines.len()
        invariant
            i <= lines@.len(),
            frames_from(texts(lines@), 0) == frames_from(texts(lines@), i as int),
        decreases lines@.len() - i,
    {
        assert(texts(lines@)[i as int] == lines@[i as int]@);
        match test_frames(&lines[i]) {
            Outcome::Breaks => {
                return false;
            },
            Outcome::Fails => {
                return true;
            },
            _ => {},
        }
        i = i + 1;
    }
    true
}

/// Whether the parser for the format can be handed these bytes.
pub fn is_readable(format: SubtitleFormat, bytes: &[u8]) -> (r: bool)
    ensures
        r == readable(format, bytes@),
{
    if format == SubtitleFormat::VobSubSub {
        return true;
    }
    if !find_high(bytes) && guess(bytes) == Guess::Stuck {
        return false;
    }
    let text: Vec<u8> = read_text(bytes);
    let feed: [u8; 1] = [0x0a];
    let ends: [u8; 2] = [0x0a, 0x0d];
    assert(feed@ =~= seq![0x0au8]);
    assert(ends@ =~= seq![0x0au8, 0x0du8]);
    match format {
        SubtitleFormat::SubRip => check_subrip(&cut_at(&text, &feed)),
        SubtitleFormat::SubStationAlpha => check_events(
            &cut_at(&text, &feed),
            &cut_at(&text, &ends),
        ),
        SubtitleFormat::VobSubIdx => check_index(&cut_at(&text, &ends)),
        SubtitleFormat::VobSubSub => true,
        SubtitleFormat::MicroDVD => check_frames(&cut_at(&text, &feed)),
    }
}

} // verus!
