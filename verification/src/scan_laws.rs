//! What scanning a text finds, told by the characters that stand in it.

use crate::scan::{
    clock_at, clock_from, cut, digits_value, numeral_at, skip, skip_back, trimmed, Clock, Kind,
    Scan, Style,
};
use crate::text::timestamp;
use crate::text_laws::{all_digits, law_timestamps_read_back, number_in};
use vstd::prelude::*;

verus! {

/// Whether a byte is white space.
pub open spec fn is_white_byte(b: u8) -> bool {
    b == 0x20 || b == 9 || b == 10 || b == 11 || b == 12 || b == 13
}

/// Whether a byte is a decimal digit.
pub open spec fn is_digit_byte(b: u8) -> bool {
    b - 0x30 >= 0 && b - 0x30 < 10
}

/// A run of digits goes from where it is looked for to the first byte that is
/// none; a run of white space likewise, and one of blanks is made up of spaces
/// and tabs.
pub proof fn law_runs_go_as_far_as_they_can(text: Seq<u8>, i: int, j: int)
    requires
        0 <= i <= text.len(),
    ensures
        ({
            let end = skip(text, i, Kind::Digit);
            &&& i <= end <= text.len()
            &&& i <= j < end ==> is_digit_byte(text[j])
            &&& end < text.len() ==> !is_digit_byte(text[end])
        }),
        ({
            let end = skip(text, i, Kind::Space);
            &&& i <= end <= text.len()
            &&& i <= j < end ==> is_white_byte(text[j])
            &&& end < text.len() ==> !is_white_byte(text[end])
        }),
        ({
            let end = skip(text, i, Kind::Blank);
            &&& i <= end <= text.len()
            &&& i <= j < end ==> text[j] == 0x20 || text[j] == 9
            &&& end < text.len() ==> text[end] != 0x20 && text[end] != 9
        }),
    decreases text.len() - i,
{
    if i < text.len() {
        law_runs_go_as_far_as_they_can(text, i + 1, j);
    }
}

/// Trimming takes white space away from both ends and nothing else.
pub proof fn law_trimming_takes_white_space_away(text: Seq<u8>) -> (r: (int, int))
    ensures
        ({
            let (from, to) = r;
            &&& 0 <= from <= to <= text.len()
            &&& trimmed(text) == text.subrange(from, to)
            &&& forall|k: int| 0 <= k < from ==> is_white_byte(#[trigger] text[k])
            &&& forall|k: int| to <= k < text.len() ==> is_white_byte(#[trigger] text[k])
            &&& from < to ==> !is_white_byte(text[from]) && !is_white_byte(text[to - 1])
        }),
{
    let from = skip(text, 0, Kind::Space);
    law_runs_go_as_far_as_they_can(text, 0, 0);
    assert forall|k: int| 0 <= k < from implies is_white_byte(#[trigger] text[k]) by {
        law_runs_go_as_far_as_they_can(text, 0, k);
    }
    let rest = text.skip(from);
    let n = skip_back(rest, rest.len() as int);
    lemma_skip_back(rest, rest.len() as int);
    let to = from + n;
    assert(trimmed(text) =~= text.subrange(from, to));
    assert forall|k: int| to <= k < text.len() implies is_white_byte(#[trigger] text[k]) by {
        assert(rest[k - from] == text[k]);
    }
    if from < to {
        assert(rest[n - 1] == text[to - 1]);
    }
    (from, to)
}

/// Where the white space at the end begins.
proof fn lemma_skip_back(text: Seq<u8>, j: int)
    requires
        0 <= j <= text.len(),
    ensures
        0 <= skip_back(text, j) <= j,
        forall|k: int| skip_back(text, j) <= k < j ==> is_white_byte(#[trigger] text[k]),
        skip_back(text, j) > 0 ==> !is_white_byte(text[skip_back(text, j) - 1]),
    decreases j,
{
    if 0 < j {
        lemma_skip_back(text, j - 1);
    }
}

/// A text that is cut at marks comes in pieces that hold no mark. The first
/// begins where the text does, the last ends where it does, and between one and
/// the next stands a mark.
pub proof fn law_pieces_lie_between_marks(text: Seq<u8>, marks: Seq<u8>) -> (at: Seq<int>)
    ensures
        cut(text, marks).len() > 0,
        at.len() == cut(text, marks).len(),
        at[0] == 0,
        at.last() + cut(text, marks).last().len() == text.len(),
        forall|k: int|
            0 <= k < at.len() ==> {
                let piece = #[trigger] cut(text, marks)[k];
                &&& 0 <= at[k] && at[k] + piece.len() <= text.len()
                &&& text.subrange(at[k], at[k] + piece.len()) == piece
                &&& forall|i: int| 0 <= i < piece.len() ==> !marks.contains(#[trigger] piece[i])
            },
        forall|k: int|
            0 < k < at.len() ==> {
                let before = cut(text, marks)[k - 1];
                &&& (#[trigger] at[k]) == at[k - 1] + before.len() + 1
                &&& marks.contains(text[at[k] - 1])
            },
    decreases text.len(),
{
    let pieces = cut(text, marks);
    if text.len() == 0 {
        assert(text.subrange(0, 0) =~= Seq::<u8>::empty());
        seq![0int]
    } else {
        let less = text.drop_last();
        let before = cut(less, marks);
        let earlier = law_pieces_lie_between_marks(less, marks);
        let n = text.len() as int;
        let at = if marks.contains(text.last()) {
            earlier.push(n)
        } else {
            earlier
        };
        assert forall|k: int| 0 <= k < at.len() implies ({
            let piece = #[trigger] pieces[k];
            &&& 0 <= at[k] && at[k] + piece.len() <= text.len()
            &&& text.subrange(at[k], at[k] + piece.len()) == piece
            &&& forall|i: int| 0 <= i < piece.len() ==> !marks.contains(#[trigger] piece[i])
        }) by {
            let piece = pieces[k];
            if k < before.len() {
                let old_piece = before[k];
                assert(less.subrange(at[k], at[k] + old_piece.len()) == old_piece);
                assert(text.subrange(at[k], at[k] + piece.len()) =~= piece);
                assert forall|i: int| 0 <= i < piece.len() implies !marks.contains(
                    #[trigger] piece[i],
                ) by {
                    if i < old_piece.len() {
                        assert(piece[i] == old_piece[i]);
                    }
                }
            } else {
                assert(text.subrange(at[k], at[k] + piece.len()) =~= piece);
            }
        }
        assert forall|k: int| 0 < k < at.len() implies ({
            let prior = pieces[k - 1];
            &&& (#[trigger] at[k]) == at[k - 1] + prior.len() + 1
            &&& marks.contains(text[at[k] - 1])
        }) by {
            if k < earlier.len() {
                assert(earlier[k] == earlier[k - 1] + before[k - 1].len() + 1);
                assert(pieces[k - 1] == before[k - 1]);
                assert(marks.contains(less[earlier[k] - 1]));
                assert(before[k] == cut(less, marks)[k]);
            } else {
                assert(pieces[k - 1] == before[k - 1]);
            }
        }
        at
    }
}

/// Whether a word stands at a place in a text.
pub open spec fn stands_at(word: Seq<char>, text: Seq<u8>, i: int) -> bool {
    &&& 0 <= i
    &&& i + word.len() <= text.len()
    &&& forall|k: int| 0 <= k < word.len() ==> text[i + k] as int == #[trigger] word[k] as int
}

/// The digits of a word are those of the text.
proof fn lemma_word_value(word: Seq<char>, text: Seq<u8>, i: int)
    requires
        all_digits(word),
        stands_at(word, text, i),
    ensures
        digits_value(text, i, i + word.len()) == number_in(word),
    decreases word.len(),
{
    if word.len() > 0 {
        let less = word.drop_last();
        assert(stands_at(less, text, i)) by {
            assert forall|k: int| 0 <= k < less.len() implies text[i + k] as int
                == #[trigger] less[k] as int by {
                assert(word[k] == less[k]);
            }
        }
        assert(all_digits(less)) by {
            assert forall|k: int| 0 <= k < less.len() implies '0' <= #[trigger] less[k] <= '9' by {
                assert(word[k] == less[k]);
            }
        }
        lemma_word_value(less, text, i);
        assert(text[i + word.len() - 1] as int == word[word.len() - 1] as int);
    }
}

/// A run of digits that stands in the text is skipped.
proof fn lemma_skip_word(word: Seq<char>, text: Seq<u8>, i: int, k: int)
    requires
        all_digits(word),
        stands_at(word, text, i),
        0 <= k <= word.len(),
        i + word.len() < text.len() ==> !is_digit_byte(text[i + word.len()]),
    ensures
        skip(text, i + k, Kind::Digit) == i + word.len(),
    decreases word.len() - k,
{
    if k < word.len() {
        assert(text[i + k] as int == word[k] as int);
        lemma_skip_word(word, text, i, k + 1);
    }
}

/// Digits that stand in a text are read as the number that they write, or found
/// too large where no 64-bit integer holds it. A minus sign before them makes
/// it negative.
pub proof fn law_numerals_are_read(word: Seq<char>, text: Seq<u8>, i: int)
    requires
        word.len() > 0,
        all_digits(word),
        stands_at(word, text, i),
        i + word.len() < text.len() ==> !is_digit_byte(text[i + word.len()]),
    ensures
        number_in(word) <= i64::MAX ==> numeral_at(text, i) == (Scan::Read {
            value: number_in(word),
            end: i + word.len(),
        }),
        number_in(word) > i64::MAX ==> numeral_at(text, i) is TooLarge,
        i > 0 && text[i - 1] == 0x2d && number_in(word) <= i64::MAX ==> numeral_at(text, i - 1) == (
        Scan::Read { value: -number_in(word), end: i + word.len() }),
        i > 0 && text[i - 1] == 0x2d && number_in(word) > i64::MAX ==> numeral_at(
            text,
            i - 1,
        ) is TooLarge,
{
    lemma_word_value(word, text, i);
    lemma_skip_word(word, text, i, 0);
    assert(text[i + 0] as int == word[0] as int);
}

/// Where no digit stands, with a minus sign before it or without, there is no
/// numeral.
pub proof fn law_no_digit_no_numeral(text: Seq<u8>, i: int)
    requires
        0 <= i <= text.len(),
        i < text.len() ==> !is_digit_byte(text[i]),
        i + 1 < text.len() && text[i] == 0x2d ==> !is_digit_byte(text[i + 1]),
    ensures
        numeral_at(text, i) is Mismatch,
{
}

/// A part of a word stands where the word does.
proof fn lemma_part_stands(word: Seq<char>, text: Seq<u8>, i: int, from: int, to: int)
    requires
        stands_at(word, text, i),
        0 <= from <= to <= word.len(),
    ensures
        stands_at(word.subrange(from, to), text, i + from),
{
    let part = word.subrange(from, to);
    assert forall|k: int| 0 <= k < part.len() implies text[i + from + k] as int
        == #[trigger] part[k] as int by {
        assert(word[from + k] == part[k]);
        assert(text[i + (from + k)] as int == word[from + k] as int);
    }
}

/// A timestamp that stands in a text is read in full, and its milliseconds fit.
pub proof fn law_timestamps_are_read(ms: nat, text: Seq<u8>, i: int)
    requires
        ms <= i64::MAX,
        stands_at(timestamp(ms), text, i),
        i + timestamp(ms).len() < text.len() ==> !is_digit_byte(text[i + timestamp(ms).len()]),
    ensures
        clock_at(text, i, Style::Comma) == (Clock::Read {
            fits: true,
            usable: true,
            end: i + timestamp(ms).len(),
        }),
{
    let word = timestamp(ms);
    let n = word.len() as int;
    law_timestamps_read_back(ms);
    let (hours, minutes, seconds, millis) = (
        word.take(n - 10),
        word.subrange(n - 9, n - 7),
        word.subrange(n - 6, n - 4),
        word.subrange(n - 3, n),
    );
    assert(word.subrange(0, n - 10) =~= hours);
    lemma_part_stands(word, text, i, 0, n - 10);
    lemma_part_stands(word, text, i, n - 9, n - 7);
    lemma_part_stands(word, text, i, n - 6, n - 4);
    lemma_part_stands(word, text, i, n - 3, n);
    assert(text[i + (n - 10)] as int == word[n - 10] as int);
    assert(text[i + (n - 7)] as int == word[n - 7] as int);
    assert(text[i + (n - 4)] as int == word[n - 4] as int);
    let (h, m, s, f) = (
        number_in(hours),
        number_in(minutes),
        number_in(seconds),
        number_in(millis),
    );
    lemma_not_negative(hours);
    lemma_not_negative(minutes);
    lemma_not_negative(seconds);
    lemma_not_negative(millis);
    law_numerals_are_read(hours, text, i);
    law_numerals_are_read(minutes, text, i + n - 9);
    law_numerals_are_read(seconds, text, i + n - 6);
    law_numerals_are_read(millis, text, i + n - 3);
    let style = Style::Comma;
    let minute_sum = m + 60 * h;
    let second_sum = s + 60 * minute_sum;
    assert(clock_from(text, i + n - 3, style, 3, second_sum, true) == (Clock::Read {
        fits: true,
        usable: true,
        end: i + n,
    }));
    assert(clock_from(text, i + n - 6, style, 2, minute_sum, true) == clock_from(
        text,
        i + n - 3,
        style,
        3,
        second_sum,
        true,
    ));
    assert(clock_from(text, i + n - 9, style, 1, h, true) == clock_from(
        text,
        i + n - 6,
        style,
        2,
        minute_sum,
        true,
    ));
    assert(clock_from(text, i, style, 0, 0, true) == clock_from(
        text,
        i + n - 9,
        style,
        1,
        h,
        true,
    ));
}

/// Digits write no negative number.
proof fn lemma_not_negative(word: Seq<char>)
    requires
        all_digits(word),
    ensures
        number_in(word) >= 0,
    decreases word.len(),
{
    if word.len() > 0 {
        let less = word.drop_last();
        assert forall|k: int| 0 <= k < less.len() implies '0' <= #[trigger] less[k] <= '9' by {
            assert(word[k] == less[k]);
        }
        lemma_not_negative(less);
        assert('0' <= word[word.len() - 1] <= '9');
    }
}

} // verus!
