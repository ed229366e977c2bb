//! Which texts are readable whatever else they hold, and which are not.

use crate::encoding::{
    begins_with, has_foreign, has_high, is_foreign, next_escape, text_of, unescaped, wide_count,
};
use crate::readable::{
    events_header, format_from, frames_from, index_from, lines_of, may_enter, may_leave, readable,
    short_lines_of, subrip_from, times_line, without_return, Stage,
};
use crate::scan::{
    clock_at, clock_from, cut, digits_value, numeral_at, skip, trimmed, Clock, Kind, Scan,
    Style,
};
use crate::scan_laws::{
    is_digit_byte, law_numerals_are_read, law_pieces_lie_between_marks,
    law_runs_go_as_far_as_they_can, law_trimming_takes_white_space_away, stands_at,
};
use crate::subtitle_file::SubtitleFormat;
use crate::text_laws::{all_digits, number_in};
use vstd::prelude::*;
use vstd::utf8::{decode_utf8, encode_utf8, encode_utf8_decode_utf8, is_ascii_chars};

verus! {

/// Whether no more than twelve digits follow each other in a text.
pub open spec fn has_short_numerals(text: Seq<u8>) -> bool {
    forall|i: int, j: int| #[trigger] digits_from_to(text, i, j) ==> j - i <= 12
}

/// Whether digits, and nothing else, stand from `i` up to `j`.
pub open spec fn digits_from_to(text: Seq<u8>, i: int, j: int) -> bool {
    &&& 0 <= i <= j <= text.len()
    &&& forall|k: int| i <= k < j ==> is_digit_byte(#[trigger] text[k])
}

/// Ten to the power `n`.
pub open spec fn ten_to(n: int) -> int
    decreases n,
{
    if n <= 0 {
        1
    } else {
        10 * ten_to(n - 1)
    }
}

/// So many digits write a number of no more digits.
proof fn lemma_digits_bound(text: Seq<u8>, i: int, j: int)
    requires
        digits_from_to(text, i, j),
    ensures
        0 <= digits_value(text, i, j) < ten_to(j - i),
    decreases j - i,
{
    if i < j {
        assert(is_digit_byte(text[j - 1]));
        assert(digits_from_to(text, i, j - 1));
        lemma_digits_bound(text, i, j - 1);
    }
}

/// A short run of digits.
proof fn lemma_twelve(n: int)
    requires
        n <= 12,
    ensures
        ten_to(n) <= 1_000_000_000_000,
{
    reveal_with_fuel(ten_to, 14);
}

/// A short numeral is never too large.
proof fn lemma_numeral(text: Seq<u8>, i: int)
    requires
        has_short_numerals(text),
        0 <= i <= text.len(),
    ensures
        !(numeral_at(text, i) is TooLarge),
        numeral_at(text, i) matches Scan::Read { value, end } ==> -1_000_000_000_000 < value
            < 1_000_000_000_000 && i < end <= text.len(),
{
    let first = if i < text.len() && text[i] == 0x2d {
        i + 1
    } else {
        i
    };
    let end = skip(text, first, Kind::Digit);
    law_runs_go_as_far_as_they_can(text, first, first);
    assert(digits_from_to(text, first, end)) by {
        assert forall|k: int| first <= k < end implies is_digit_byte(#[trigger] text[k]) by {
            law_runs_go_as_far_as_they_can(text, first, k);
        }
    }
    lemma_digits_bound(text, first, end);
    lemma_twelve(end - first);
}

/// A time of short numerals fits, and can be used.
proof fn lemma_clock(text: Seq<u8>, i: int, style: Style)
    requires
        has_short_numerals(text),
        0 <= i <= text.len(),
    ensures
        !(clock_at(text, i, style) is TooLarge),
        clock_at(text, i, style) matches Clock::Read { fits, usable, end } ==> fits && usable && i
            <= end <= text.len(),
{
    lemma_clock_from(text, i, style, 0, 0);
}

/// The parts of a time of short numerals.
proof fn lemma_clock_from(text: Seq<u8>, i: int, style: Style, k: int, sum: int)
    requires
        has_short_numerals(text),
        0 <= i <= text.len(),
        0 <= k <= 3,
        k == 0 ==> sum == 0,
        k == 1 ==> -1_000_000_000_000 < sum < 1_000_000_000_000,
        k == 2 ==> -61_000_000_000_000 < sum < 61_000_000_000_000,
        k == 3 ==> -3_661_000_000_000_000 < sum < 3_661_000_000_000_000,
    ensures
        !(clock_from(text, i, style, k, sum, true) is TooLarge),
        clock_from(text, i, style, k, sum, true) matches Clock::Read { fits, usable, end } ==> fits
            && usable && i <= end <= text.len(),
    decreases 4 - k,
{
    lemma_numeral(text, i);
    if let Scan::Read { value, end } = numeral_at(text, i) {
        if k < 3 && end < text.len() {
            lemma_clock_from(text, end + 1, style, k + 1, value + 60 * sum);
        }
    }
}

/// A line of times with short numerals does not stop the parser.
proof fn lemma_times(line: Seq<u8>)
    requires
        has_short_numerals(line),
    ensures
        !(times_line(line) is Breaks),
{
    law_runs_go_as_far_as_they_can(line, 0, 0);
    let first = skip(line, 0, Kind::Blank);
    lemma_clock(line, first, Style::Comma);
    if let Clock::Read { end, .. } = clock_at(line, first, Style::Comma) {
        law_runs_go_as_far_as_they_can(line, end, end);
        let at = skip(line, end, Kind::Blank);
        if at + 3 <= line.len() {
            law_runs_go_as_far_as_they_can(line, at + 3, at + 3);
            lemma_clock(line, skip(line, at + 3, Kind::Blank), Style::Comma);
        }
    }
}

/// A part of a text with short numerals has short numerals.
proof fn lemma_part_is_short(text: Seq<u8>, from: int, to: int)
    requires
        has_short_numerals(text),
        0 <= from <= to <= text.len(),
    ensures
        has_short_numerals(text.subrange(from, to)),
{
    let part = text.subrange(from, to);
    assert forall|i: int, j: int| #[trigger] digits_from_to(part, i, j) implies j - i <= 12 by {
        assert(digits_from_to(text, from + i, from + j)) by {
            assert forall|k: int| from + i <= k < from + j implies is_digit_byte(
                #[trigger] text[k],
            ) by {
                assert(part[k - from] == text[k]);
            }
        }
    }
}

/// Whether all lines have short numerals.
spec fn all_short(lines: Seq<Seq<u8>>) -> bool {
    forall|k: int| 0 <= k < lines.len() ==> has_short_numerals(#[trigger] lines[k])
}

/// The lines of a text with short numerals have short numerals.
proof fn lemma_lines_are_short(text: Seq<u8>, marks: Seq<u8>)
    requires
        has_short_numerals(text),
    ensures
        all_short(cut(text, marks)),
{
    let at = law_pieces_lie_between_marks(text, marks);
    let lines = cut(text, marks);
    assert forall|k: int| 0 <= k < lines.len() implies has_short_numerals(#[trigger] lines[k]) by {
        lemma_part_is_short(text, at[k], at[k] + lines[k].len());
    }
}

/// Lines of a SubRip file with short numerals can be read.
proof fn lemma_subrip(lines: Seq<Seq<u8>>, i: int, stage: Stage)
    requires
        all_short(lines),
    ensures
        subrip_from(lines, i, stage),
    decreases lines.len() - i,
{
    if 0 <= i < lines.len() {
        let line = lines[i];
        lemma_subrip(lines, i + 1, Stage::Gap);
        lemma_subrip(lines, i + 1, Stage::Number);
        lemma_subrip(lines, i + 1, Stage::Body);
        if line.len() > 0 {
            lemma_part_is_short(line, 0, line.len() - 1);
            assert(line.subrange(0, line.len() - 1) =~= line.drop_last());
        }
        lemma_times(without_return(line));
    }
}

/// Lines of a MicroDVD file with short numerals can be read.
proof fn lemma_frames(lines: Seq<Seq<u8>>, i: int)
    requires
        all_short(lines),
    ensures
        frames_from(lines, i),
    decreases lines.len() - i,
{
    if 0 <= i < lines.len() {
        let line = lines[i];
        lemma_frames(lines, i + 1);
        if line.len() > 0 {
            lemma_numeral(line, 1);
            if let Scan::Read { end, .. } = numeral_at(line, 1) {
                if end + 2 <= line.len() {
                    lemma_numeral(line, end + 2);
                }
            }
        }
    }
}

/// Lines of a VobSub index with short numerals can be read.
proof fn lemma_index(lines: Seq<Seq<u8>>, i: int)
    requires
        all_short(lines),
    ensures
        index_from(lines, i, true),
    decreases lines.len() - i,
{
    if 0 <= i < lines.len() {
        let line = lines[i];
        lemma_index(lines, i + 1);
        law_runs_go_as_far_as_they_can(line, 0, 0);
        let at = skip(line, 0, Kind::Blank);
        if at + 10 <= line.len() {
            law_runs_go_as_far_as_they_can(line, at + 10, at + 10);
            let first = skip(line, at + 10, Kind::Blank);
            lemma_clock_run(line, first);
            let time = line.subrange(first, skip(line, first, Kind::Clock));
            lemma_part_is_short(line, first, skip(line, first, Kind::Clock));
            lemma_clock(time, 0, Style::Colon);
        }
    }
}

/// A run ends within its line.
proof fn lemma_clock_run(line: Seq<u8>, i: int)
    requires
        0 <= i <= line.len(),
    ensures
        i <= skip(line, i, Kind::Clock) <= line.len(),
    decreases line.len() - i,
{
    if i < line.len() {
        lemma_clock_run(line, i + 1);
    }
}

/// Without an escape byte there is no escape sequence.
proof fn lemma_no_escape(bytes: Seq<u8>, i: int)
    requires
        0 <= i <= bytes.len(),
        forall|k: int| 0 <= k < bytes.len() ==> #[trigger] bytes[k] != 0x1b,
    ensures
        next_escape(bytes, i) == bytes.len(),
    decreases bytes.len() - i,
{
    if i < bytes.len() {
        lemma_no_escape(bytes, i + 1);
    }
}

/// A file without escape bytes in which no more than twelve digits follow each
/// other can be handed to the parser for SubRip, MicroDVD or a VobSub index,
/// whatever else it holds, be it such a file or not. To the parser for binary
/// files any file can.
pub proof fn law_short_numerals_are_readable(bytes: Seq<u8>, format: SubtitleFormat)
    requires
        forall|k: int| 0 <= k < bytes.len() ==> #[trigger] bytes[k] != 0x1b,
        has_short_numerals(text_of(bytes)),
        !(format is SubStationAlpha),
    ensures
        readable(format, bytes),
{
    let text = text_of(bytes);
    lemma_no_escape(bytes, 0);
    lemma_lines_are_short(text, seq![0x0au8]);
    lemma_lines_are_short(text, seq![0x0au8, 0x0du8]);
    lemma_subrip(lines_of(text), 0, Stage::Gap);
    lemma_frames(lines_of(text), 0);
    lemma_index(short_lines_of(text), 0);
}

/// Characters that are all ASCII.
proof fn lemma_none_wide(chars: Seq<char>)
    requires
        is_ascii_chars(chars),
    ensures
        wide_count(chars) == 0,
    decreases chars.len(),
{
    if chars.len() > 0 {
        let less = chars.drop_last();
        assert forall|i: int| 0 <= i < less.len() implies '\0' <= #[trigger] less[i] <= '\u{7f}' by {
            assert(chars[i] == less[i]);
        }
        lemma_none_wide(less);
        assert(chars[chars.len() - 1] <= '\u{7f}');
    }
}

/// ASCII without escape bytes has nothing to be taken out of it.
proof fn lemma_nothing_escaped(bytes: Seq<u8>)
    requires
        forall|k: int| 0 <= k < bytes.len() ==> #[trigger] bytes[k] < 0x80 && bytes[k] != 0x1b,
    ensures
        unescaped(bytes, true) == bytes,
    decreases bytes.len(),
{
    if bytes.len() > 0 {
        let rest = bytes.skip(1);
        assert forall|k: int| 0 <= k < rest.len() implies #[trigger] rest[k] < 0x80 && rest[k]
            != 0x1b by {
            assert(bytes[k + 1] == rest[k]);
        }
        lemma_nothing_escaped(rest);
        assert(bytes[0] < 0x80 && bytes[0] != 0x1b);
        assert(seq![bytes[0]] + rest =~= bytes);
    }
    assert(unescaped(bytes, true) =~= bytes);
}

/// Bytes of ASCII without escapes are their own text.
pub proof fn law_ascii_is_its_own_text(bytes: Seq<u8>)
    requires
        forall|k: int| 0 <= k < bytes.len() ==> #[trigger] bytes[k] < 0x80 && bytes[k] != 0x1b,
    ensures
        text_of(bytes) == bytes,
{
    let chars = Seq::new(bytes.len(), |i: int| bytes[i] as char);
    assert forall|i: int| 0 <= i < chars.len() implies '\0' <= #[trigger] chars[i] <= '\u{7f}' by {
        assert(bytes[i] < 0x80);
    }
    assert(is_ascii_chars(chars));
    vstd::utf8::is_ascii_chars_encode_utf8(chars);
    assert(encode_utf8(chars) =~= bytes) by {
        assert forall|i: int| 0 <= i < bytes.len() implies encode_utf8(chars)[i] == bytes[i] by {
            assert(chars[i] as u8 == encode_utf8(chars)[i]);
            assert(bytes[i] < 0x80);
        }
    }
    encode_utf8_decode_utf8(chars);
    assert(decode_utf8(bytes) == chars);
    lemma_none_wide(chars);
    lemma_no_escape(bytes, 0);
    lemma_nothing_escaped(bytes);
    assert(!has_high(bytes));
    lemma_no_mark(bytes, seq![0xefu8, 0xbbu8, 0xbfu8]);
    lemma_no_mark(bytes, seq![0xfeu8, 0xffu8]);
    lemma_no_mark(bytes, seq![0xffu8, 0xfeu8]);
}

/// ASCII does not begin with a byte order mark.
proof fn lemma_no_mark(bytes: Seq<u8>, mark: Seq<u8>)
    requires
        forall|k: int| 0 <= k < bytes.len() ==> #[trigger] bytes[k] < 0x80,
        mark.len() > 0,
        mark[0] >= 0x80,
    ensures
        !begins_with(bytes, mark),
{
    if begins_with(bytes, mark) {
        assert(bytes.take(mark.len() as int)[0] == bytes[0]);
    }
}

/// A file without escape bytes, brackets that open, and characters that are not
/// ASCII can be handed to the parser for SubStation Alpha: there are no events
/// in it.
pub proof fn law_no_events_are_readable(bytes: Seq<u8>)
    requires
        forall|k: int|
            0 <= k < bytes.len() ==> #[trigger] bytes[k] < 0x80 && bytes[k] != 0x1b && bytes[k]
                != 0x5b,
    ensures
        readable(SubtitleFormat::SubStationAlpha, bytes),
{
    law_ascii_is_its_own_text(bytes);
    lemma_no_escape(bytes, 0);
    let lines = lines_of(bytes);
    let at = law_pieces_lie_between_marks(bytes, seq![0x0au8]);
    assert forall|k: int| 0 <= k < lines.len() implies no_brackets(#[trigger] lines[k]) by {
        let line = lines[k];
        assert forall|i: int| 0 <= i < line.len() implies #[trigger] line[i] < 0x80 && line[i]
            != 0x5b by {
            assert(bytes.subrange(at[k], at[k] + line.len())[i] == bytes[at[k] + i]);
        }
    }
    lemma_no_events(lines, 0, short_lines_of(bytes));
}

/// Whether a line is ASCII and has no bracket that opens.
spec fn no_brackets(line: Seq<u8>) -> bool {
    forall|i: int| 0 <= i < line.len() ==> #[trigger] line[i] < 0x80 && line[i] != 0x5b
}

/// Lines without brackets begin no events.
proof fn lemma_no_events(lines: Seq<Seq<u8>>, i: int, dialogue: Seq<Seq<u8>>)
    requires
        forall|k: int| 0 <= k < lines.len() ==> no_brackets(#[trigger] lines[k]),
    ensures
        format_from(lines, i, false, dialogue),
    decreases lines.len() - i,
{
    if 0 <= i < lines.len() {
        let line = lines[i];
        lemma_no_events(lines, i + 1, dialogue);
        assert(no_brackets(line));
        let (from, to) = law_trimming_takes_white_space_away(line);
        assert(!has_foreign(line)) by {
            assert forall|k: int| 0 <= k < line.len() implies !is_foreign(#[trigger] line[k]) by {}
        }
        if to > from {
            assert(line.subrange(from, to)[0] == line[from]);
        }
        assert(events_header()[0] == 0x5b && events_header().len() == 8);
        if may_enter(line) {
            assert(trimmed(line)[0] == 0x5b && trimmed(line).len() == 8);
        }
        assert(!may_enter(line) && !may_leave(line));
    }
}

/// A line of times whose hours no 64-bit integer holds stops the parser.
pub proof fn law_large_hours_break(line: Seq<u8>, hours: Seq<char>)
    requires
        hours.len() > 0,
        all_digits(hours),
        stands_at(hours, line, 0),
        hours.len() < line.len() ==> !is_digit_byte(line[hours.len() as int]),
        number_in(hours) > i64::MAX,
    ensures
        times_line(line) is Breaks,
{
    assert(line[0 + 0int] as int == hours[0] as int);
    law_numerals_are_read(hours, line, 0);
}

} // verus!
