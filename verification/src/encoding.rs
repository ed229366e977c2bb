//! The characters of a subtitle file, as far as the parser tells them apart.
//!
//! The `subparse` crate guesses the encoding of a file, decodes it, and then
//! looks at little more than digits, punctuation, white space and line ends.
//! [`text_of`] gives these characters. Sometimes the encoding is certain: by a
//! byte order mark, in plain ASCII, and in UTF-8 with enough characters that
//! are not ASCII. Where it is not, ASCII characters keep their place in every
//! encoding that may be guessed, and it is left open what the others are.

use crate::text::utf8_text;
use vstd::prelude::*;
use vstd::utf8::{decode_utf8, valid_utf8};

verus! {

/// The escape control byte.
pub const ESCAPE: u8 = 0x1b;

/// A byte that shows that the text is not plain ASCII.
pub open spec fn is_high(b: u8) -> bool {
    b >= 0x80 && b != 0xa0
}

/// Whether some byte shows that the text is not plain ASCII.
pub open spec fn has_high(bytes: Seq<u8>) -> bool {
    exists|i: int| 0 <= i < bytes.len() && is_high(#[trigger] bytes[i])
}

// ---------------------------------------------------------------------------
// Escape sequences
// ---------------------------------------------------------------------------

/// What the encoding of a text without high bytes is taken for.
#[derive(Clone, Copy, Debug, PartialEq, Eq, Structural)]
pub enum Guess {
    /// ASCII.
    Plain,
    /// ISO-2022-JP.
    Japanese,
    /// One that is known by name but cannot be decoded.
    Unknown,
    /// None, and the program stops.
    Stuck,
}

/// Where the first escape byte stands, from `i` on; the end if there is none.
pub open spec fn next_escape(bytes: Seq<u8>, i: int) -> int
    decreases bytes.len() - i,
{
    if 0 <= i < bytes.len() && bytes[i] != ESCAPE {
        next_escape(bytes, i + 1)
    } else {
        i
    }
}

/// Whether the escape sequence at `i` announces Japanese characters, or Latin
/// letters the Japanese way.
pub open spec fn announces_japanese(bytes: Seq<u8>, i: int) -> bool {
    &&& i + 2 < bytes.len()
    &&& {
        ||| bytes[i + 1] == 0x24 && (bytes[i + 2] == 0x40 || bytes[i + 2] == 0x42)
        ||| bytes[i + 1] == 0x28 && (bytes[i + 2] == 0x42 || bytes[i + 2] == 0x49 || bytes[i + 2]
            == 0x4a)
    }
}

/// Whether the escape sequence at `i` announces the additional Japanese
/// characters, which no decoder here knows.
pub open spec fn announces_more(bytes: Seq<u8>, i: int) -> bool {
    i + 3 < bytes.len() && bytes[i + 1] == 0x24 && bytes[i + 2] == 0x28 && bytes[i + 3] == 0x44
}

/// Whether the escape sequence at `i` announces Korean characters.
pub open spec fn announces_korean(bytes: Seq<u8>, i: int) -> bool {
    i + 3 < bytes.len() && bytes[i + 1] == 0x24 && bytes[i + 2] == 0x29 && bytes[i + 3] == 0x43
}

/// A byte after which no escape sequence is looked for.
pub open spec fn is_stray(b: u8) -> bool {
    b == 0 || b >= 0x80
}

/// A control byte that shifts between character sets, after which no Japanese
/// escape sequence is looked for.
pub open spec fn is_shift(b: u8) -> bool {
    b == 0x0e || b == 0x0f
}

/// Whether none of the bytes before `n` is a stray one.
pub open spec fn none_stray(bytes: Seq<u8>, n: int) -> bool {
    forall|k: int| 0 <= k < n ==> !is_stray(#[trigger] bytes[k])
}

/// Whether none of the bytes before `n` is a shift.
pub open spec fn none_shifts(bytes: Seq<u8>, n: int) -> bool {
    forall|k: int| 0 <= k < n ==> !is_shift(#[trigger] bytes[k])
}

/// Where a text that may be in the HZ encoding has got to.
#[derive(Clone, Copy, Debug, PartialEq, Eq, Structural)]
pub enum Passage {
    /// In Latin letters.
    Outside,
    /// After a tilde in Latin letters.
    Tilde,
    /// In Chinese characters, between two of them.
    Between,
    /// In Chinese characters, within one of them.
    Within,
    /// In Chinese characters, after a tilde between two of them.
    Closing,
}

/// Whether a passage of Chinese characters in the HZ encoding, from `~{` to
/// `~}`, ends before anything comes that cannot stand in a text of that
/// encoding.
pub open spec fn has_passage(bytes: Seq<u8>, i: int, at: Passage) -> bool
    decreases bytes.len() - i,
{
    if i < 0 || i >= bytes.len() || is_stray(bytes[i]) || bytes[i] == ESCAPE {
        false
    } else {
        let b = bytes[i];
        match at {
            Passage::Outside => has_passage(
                bytes,
                i + 1,
                if b == 0x7e {
                    Passage::Tilde
                } else {
                    Passage::Outside
                },
            ),
            Passage::Tilde => if b == 0x7e {
                has_passage(bytes, i + 1, Passage::Outside)
            } else {
                b == 0x7b && has_passage(bytes, i + 1, Passage::Between)
            },
            Passage::Between => has_passage(
                bytes,
                i + 1,
                if b == 0x7e {
                    Passage::Closing
                } else {
                    Passage::Within
                },
            ),
            Passage::Within => has_passage(bytes, i + 1, Passage::Between),
            Passage::Closing => b == 0x7d || has_passage(bytes, i + 1, Passage::Between),
        }
    }
}

/// What the encoding of a text without high bytes is taken for: ASCII if there
/// is no escape byte, and what the first escape sequence announces if there is
/// one, unless it comes after a passage of Chinese.
pub open spec fn guess_of(bytes: Seq<u8>) -> Guess {
    let e = next_escape(bytes, 0);
    if e == bytes.len() {
        Guess::Plain
    } else if has_passage(bytes, 0, Passage::Outside) {
        Guess::Unknown
    } else if !none_stray(bytes, e) {
        Guess::Stuck
    } else if announces_korean(bytes, e) {
        Guess::Unknown
    } else if !none_shifts(bytes, e) {
        Guess::Stuck
    } else if announces_japanese(bytes, e) {
        Guess::Japanese
    } else if announces_more(bytes, e) {
        Guess::Unknown
    } else {
        Guess::Stuck
    }
}

// ---------------------------------------------------------------------------
// Characters
// ---------------------------------------------------------------------------

/// What stands for a character that is not ASCII and of which nothing else is
/// known.
pub const FOREIGN: u8 = 0xff;

/// What stands for white space that is not ASCII: white space that is neither
/// a space nor a tab, and ends no line.
pub const OTHER_SPACE: u8 = 0x0b;

/// What stands for any other character that is not ASCII: one that means
/// nothing to the parser.
pub const OTHER: u8 = 0x7f;

/// Part of a character that is not ASCII. In some encodings the byte after it
/// is part of that character too, unless it is a control character, a blank or
/// one of the marks below the digits.
pub open spec fn is_foreign(b: u8) -> bool {
    b >= 0x80
}

/// Whether some character is not ASCII and nothing else is known of it.
pub open spec fn has_foreign(text: Seq<u8>) -> bool {
    exists|i: int| 0 <= i < text.len() && is_foreign(#[trigger] text[i])
}

/// The white space of Unicode.
pub open spec fn is_white(c: u32) -> bool {
    ||| 9 <= c <= 13
    ||| c == 0x20
    ||| c == 0x85
    ||| c == 0xa0
    ||| c == 0x1680
    ||| 0x2000 <= c <= 0x200a
    ||| c == 0x2028
    ||| c == 0x2029
    ||| c == 0x202f
    ||| c == 0x205f
    ||| c == 0x3000
}

/// The byte that stands for a character.
pub open spec fn byte_for(c: u32) -> u8 {
    if c < 0x80 {
        c as u8
    } else if is_white(c) {
        OTHER_SPACE
    } else {
        OTHER
    }
}

/// The bytes that stand for characters.
pub open spec fn bytes_for(chars: Seq<char>) -> Seq<u8> {
    Seq::new(chars.len(), |i: int| byte_for(chars[i] as u32))
}

/// How many characters are not ASCII.
pub open spec fn wide_count(chars: Seq<char>) -> nat
    decreases chars.len(),
{
    if chars.len() == 0 {
        0
    } else {
        wide_count(chars.drop_last()) + if chars.last() as u32 >= 0x80 {
            1nat
        } else {
            0nat
        }
    }
}

/// A character that makes UTF-8 hard to recognize: an escape or a shift, or
/// one of the first plane beyond sixteen bits, in which emoji are.
pub open spec fn is_misleading(c: char) -> bool {
    c as u32 == 0x1b || c as u32 == 0x0e || c as u32 == 0x0f || 0x1_0000 <= c as u32 <= 0x1_ffff
}

/// Whether none of the characters is misleading.
pub open spec fn none_misleading(chars: Seq<char>) -> bool {
    forall|i: int| 0 <= i < chars.len() ==> !is_misleading(#[trigger] chars[i])
}

/// Whether bytes without a mark are UTF-8 and cannot be taken for anything
/// else: five characters that are not ASCII are enough for that.
pub open spec fn surely_utf8(bytes: Seq<u8>) -> bool {
    valid_utf8(bytes) && none_misleading(decode_utf8(bytes)) && wide_count(decode_utf8(bytes)) >= 5
}

// ---------------------------------------------------------------------------
// The text
// ---------------------------------------------------------------------------

/// What stands for a byte of ASCII text, to which no-break spaces are counted.
pub open spec fn latin_byte(b: u8, latin: bool) -> u8 {
    if !latin {
        FOREIGN
    } else if b == 0xa0 {
        OTHER_SPACE
    } else {
        b
    }
}

/// ASCII text without its escape sequences. Between a sequence that announces
/// Japanese characters and one that announces Latin letters again, nothing is
/// ASCII; `latin` tells whether Latin letters are announced at the start.
pub open spec fn unescaped(bytes: Seq<u8>, latin: bool) -> Seq<u8>
    decreases bytes.len(),
{
    if bytes.len() == 0 {
        Seq::empty()
    } else if bytes[0] == ESCAPE && bytes.len() >= 3 {
        unescaped(bytes.skip(3), bytes[1] == 0x28 && (bytes[2] == 0x42 || bytes[2] == 0x4a))
    } else {
        seq![latin_byte(bytes[0], latin)] + unescaped(bytes.skip(1), latin)
    }
}

/// The number of a character of two bytes.
pub open spec fn unit(high: u8, low: u8) -> u32 {
    (0x100 * high + low) as u32
}

/// Whether the bytes begin with the given ones.
pub open spec fn begins_with(bytes: Seq<u8>, start: Seq<u8>) -> bool {
    bytes.len() >= start.len() && bytes.take(start.len() as int) == start
}

/// The bytes without `mark` at their start, once or twice.
pub open spec fn without_mark(bytes: Seq<u8>, mark: Seq<u8>) -> Seq<u8> {
    if begins_with(bytes, mark + mark) {
        bytes.skip(2 * mark.len() as int)
    } else {
        bytes.skip(mark.len() as int)
    }
}

/// The text that the bytes are, as far as it matters to the parser. A byte
/// order mark at the start decides the encoding and is no part of the text.
/// What cannot be decoded is an error, and there is no text to look at.
pub open spec fn text_of(bytes: Seq<u8>) -> Seq<u8> {
    if begins_with(bytes, seq![0xefu8, 0xbbu8, 0xbfu8]) {
        let rest = without_mark(bytes, seq![0xefu8, 0xbbu8, 0xbfu8]);
        if valid_utf8(rest) {
            bytes_for(decode_utf8(rest))
        } else {
            Seq::empty()
        }
    } else if begins_with(bytes, seq![0xfeu8, 0xffu8]) {
        let units = without_mark(bytes, seq![0xfeu8, 0xffu8]);
        Seq::new(units.len() / 2, |i: int| byte_for(unit(units[2 * i], units[2 * i + 1])))
    } else if begins_with(bytes, seq![0xffu8, 0xfeu8]) {
        let units = without_mark(bytes, seq![0xffu8, 0xfeu8]);
        Seq::new(units.len() / 2, |i: int| byte_for(unit(units[2 * i + 1], units[2 * i])))
    } else if surely_utf8(bytes) {
        bytes_for(decode_utf8(bytes))
    } else if has_high(bytes) {
        bytes
    } else if guess_of(bytes) is Unknown {
        Seq::empty()
    } else {
        unescaped(bytes, true)
    }
}

// ---------------------------------------------------------------------------
// Guessing
// ---------------------------------------------------------------------------

/// Whether some byte shows that the text is not plain ASCII.
pub(crate) fn find_high(bytes: &[u8]) -> (r: bool)
    ensures
        r == has_high(bytes@),
{
    let mut i: usize = 0;
    while i < bytes.len()
        invariant
            i <= bytes@.len(),
            forall|k: int| 0 <= k < i ==> !is_high(#[trigger] bytes@[k]),
        decreases bytes@.len() - i,
    {
        let b: u8 = bytes[i];
        if b >= 0x80 && b != 0xa0 {
            assert(is_high(bytes@[i as int]));
            return true;
        }
        i = i + 1;
    }
    false
}

/// Where the first escape byte stands.
fn find_escape(bytes: &[u8]) -> (r: usize)
    ensures
        r <= bytes@.len(),
        r == next_escape(bytes@, 0),
{
    let mut i: usize = 0;
    while i < bytes.len() && bytes[i] != ESCAPE
        invariant
            i <= bytes@.len(),
            next_escape(bytes@, i as int) == next_escape(bytes@, 0),
        decreases bytes@.len() - i,
    {
        i = i + 1;
    }
    i
}

/// Whether none of the bytes before `n` is a stray one.
fn check_none_stray(bytes: &[u8], n: usize) -> (r: bool)
    requires
        n <= bytes@.len(),
    ensures
        r == none_stray(bytes@, n as int),
{
    let mut i: usize = 0;
    while i < n
        invariant
            i <= n <= bytes@.len(),
            none_stray(bytes@, i as int),
        decreases n - i,
    {
        if bytes[i] == 0 || bytes[i] >= 0x80 {
            assert(is_stray(bytes@[i as int]));
            return false;
        }
        i = i + 1;
    }
    true
}

/// Whether none of the bytes before `n` is a shift.
fn check_none_shifts(bytes: &[u8], n: usize) -> (r: bool)
    requires
        n <= bytes@.len(),
    ensures
        r == none_shifts(bytes@, n as int),
{
    let mut i: usize = 0;
    while i < n
        invariant
            i <= n <= bytes@.len(),
            none_shifts(bytes@, i as int),
        decreases n - i,
    {
        if bytes[i] == 0x0e || bytes[i] == 0x0f {
            assert(is_shift(bytes@[i as int]));
            return false;
        }
        i = i + 1;
    }
    true
}

/// Whether a passage of Chinese characters ends before anything comes that
/// cannot stand there.
fn find_passage(bytes: &[u8]) -> (r: bool)
    ensures
        r == has_passage(bytes@, 0, Passage::Outside),
{
    let mut at: Passage = Passage::Outside;
    let mut i: usize = 0;
    while i < bytes.len()
        invariant
            i <= bytes@.len(),
            has_passage(bytes@, i as int, at) == has_passage(bytes@, 0, Passage::Outside),
        decreases bytes@.len() - i,
    {
        let b: u8 = bytes[i];
        if b == 0 || b >= 0x80 || b == ESCAPE {
            return false;
        }
        at = match at {
            Passage::Outside => if b == 0x7e {
                Passage::Tilde
            } else {
                Passage::Outside
            },
            Passage::Tilde => if b == 0x7e {
                Passage::Outside
            } else if b == 0x7b {
                Passage::Between
            } else {
                return false;
            },
            Passage::Between => if b == 0x7e {
                Passage::Closing
            } else {
                Passage::Within
            },
            Passage::Within => Passage::Between,
            Passage::Closing => if b == 0x7d {
                return true;
            } else {
                Passage::Between
            },
        };
        i = i + 1;
    }
    false
}

/// What the encoding of a text without high bytes is taken for.
pub(crate) fn guess(bytes: &[u8]) -> (r: Guess)
    ensures
        r == guess_of(bytes@),
{
    let n: usize = bytes.len();
    let e: usize = find_escape(bytes);
    if e == n {
        return Guess::Plain;
    }
    if find_passage(bytes) {
        return Guess::Unknown;
    }
    if !check_none_stray(bytes, e) {
        return Guess::Stuck;
    }
    if n - e > 3 && bytes[e + 1] == 0x24 && bytes[e + 2] == 0x29 && bytes[e + 3] == 0x43 {
        return Guess::Unknown;
    }
    if !check_none_shifts(bytes, e) {
        return Guess::Stuck;
    }
    if n - e > 2 && (bytes[e + 1] == 0x24 && (bytes[e + 2] == 0x40 || bytes[e + 2] == 0x42)
        || bytes[e + 1] == 0x28 && (bytes[e + 2] == 0x42 || bytes[e + 2] == 0x49 || bytes[e + 2]
        == 0x4a)) {
        return Guess::Japanese;
    }
    if n - e > 3 && bytes[e + 1] == 0x24 && bytes[e + 2] == 0x28 && bytes[e + 3] == 0x44 {
        return Guess::Unknown;
    }
    Guess::Stuck
}

// ---------------------------------------------------------------------------
// Reading
// ---------------------------------------------------------------------------

/// Whether the bytes from `at` on begin with the given ones.
pub(crate) fn starts_at(bytes: &[u8], at: usize, start: &[u8]) -> (r: bool)
    requires
        at <= bytes@.len(),
    ensures
        r == begins_with(bytes@.skip(at as int), start@),
{
    let n: usize = start.len();
    let m: usize = bytes.len();
    if m - at < n {
        return false;
    }
    let mut i: usize = 0;
    while i < n
        invariant
            i <= n,
            n == start@.len(),
            m == bytes@.len(),
            at + n <= m,
            forall|k: int| 0 <= k < i ==> #[trigger] start@[k] == bytes@[at + k],
        decreases n - i,
    {
        if bytes[at + i] != start[i] {
            assert(bytes@.skip(at as int).take(n as int)[i as int] != start@[i as int]);
            return false;
        }
        i = i + 1;
    }
    assert(bytes@.skip(at as int).take(n as int) =~= start@);
    true
}

/// How many bytes the mark at the start takes up, once or twice.
fn mark_length(bytes: &[u8], mark: &[u8]) -> (r: usize)
    requires
        begins_with(bytes@, mark@),
        mark@.len() <= 3,
    ensures
        r <= bytes@.len(),
        bytes@.skip(r as int) == without_mark(bytes@, mark@),
{
    let n: usize = mark.len();
    let twice: bool = starts_at(bytes, n, mark);
    proof {
        if twice {
            assert(bytes@.take(2 * n as int) =~= mark@ + mark@);
        } else if begins_with(bytes@, mark@ + mark@) {
            assert((mark@ + mark@).skip(n as int) =~= mark@);
            assert(bytes@.skip(n as int).take(n as int) =~= bytes@.take(2 * n as int).skip(
                n as int,
            ));
        }
    }
    if twice {
        2 * n
    } else {
        n
    }
}

/// Whether a character is white space.
fn test_white(c: u32) -> (r: bool)
    ensures
        r == is_white(c),
{
    9 <= c && c <= 13 || c == 0x20 || c == 0x85 || c == 0xa0 || c == 0x1680 || 0x2000 <= c && c
        <= 0x200a || c == 0x2028 || c == 0x2029 || c == 0x202f || c == 0x205f || c == 0x3000
}

/// The byte that stands for a character.
fn stand_in(c: u32) -> (r: u8)
    ensures
        r == byte_for(c),
{
    if c < 0x80 {
        c as u8
    } else if test_white(c) {
        OTHER_SPACE
    } else {
        OTHER
    }
}

/// The characters of two bytes each from `at` on.
fn units_from(bytes: &[u8], at: usize, high_first: bool) -> (text: Vec<u8>)
    requires
        at <= bytes@.len(),
    ensures
        text@ == Seq::new(
            (bytes@.len() - at) as nat / 2,
            |i: int|
                if high_first {
                    byte_for(unit(bytes@.skip(at as int)[2 * i], bytes@.skip(at as int)[2 * i + 1]))
                } else {
                    byte_for(unit(bytes@.skip(at as int)[2 * i + 1], bytes@.skip(at as int)[2 * i]))
                },
        ),
{
    let n: usize = bytes.len();
    let mut text: Vec<u8> = Vec::new();
    let mut i: usize = at;
    while n - i >= 2
        invariant
            at <= i <= n,
            n == bytes@.len(),
            i == at + 2 * text@.len(),
            forall|k: int|
                0 <= k < text@.len() ==> #[trigger] text@[k] == byte_for(
                    if high_first {
                        unit(bytes@[at + 2 * k], bytes@[at + 2 * k + 1])
                    } else {
                        unit(bytes@[at + 2 * k + 1], bytes@[at + 2 * k])
                    },
                ),
        decreases n - i,
    {
        let high: u32 = if high_first {
            bytes[i] as u32
        } else {
            bytes[i + 1] as u32
        };
        let low: u32 = if high_first {
            bytes[i + 1] as u32
        } else {
            bytes[i] as u32
        };
        text.push(stand_in(0x100 * high + low));
        i = i + 2;
    }
    text
}

/// The bytes that stand for the characters of a text, how many of these are not
/// ASCII, and whether one of them is misleading.
fn stand_ins(text: &str) -> (r: (Vec<u8>, usize, bool))
    ensures
        r.0@ == bytes_for(text@),
        r.1 == wide_count(text@),
        r.2 == !none_misleading(text@),
{
    let mut bytes: Vec<u8> = Vec::new();
    let mut wide: usize = 0;
    let mut misleading: bool = false;
    assert(bytes_for(text@.take(0)) =~= Seq::<u8>::empty());
    for c in it: text.chars()
        invariant
            it.seq() == text@,
            bytes@ == bytes_for(text@.take(it.index() as int)),
            wide == wide_count(text@.take(it.index() as int)),
            wide <= bytes@.len(),
            misleading == !none_misleading(text@.take(it.index() as int)),
    {
        let ghost i = it.index() as int;
        let ghost before = text@.take(i);
        let ghost after = text@.take(i + 1);
        assert(after.drop_last() =~= before);
        assert(after.last() == c);
        let code: u32 = c as u32;
        bytes.push(stand_in(code));
        assert(bytes@ =~= bytes_for(after));
        let n: usize = bytes.len();
        if code >= 0x80 {
            assert(wide < n);
            wide = wide + 1;
        }
        if code == 0x1b || code == 0x0e || code == 0x0f || 0x1_0000 <= code && code <= 0x1_ffff {
            misleading = true;
            assert(is_misleading(after[i]));
        }
        proof {
            if none_misleading(after) {
                assert forall|k: int| 0 <= k < before.len() implies !is_misleading(
                    #[trigger] before[k],
                ) by {
                    assert(after[k] == before[k]);
                }
            }
            if none_misleading(before) && !is_misleading(c) {
                assert forall|k: int| 0 <= k < after.len() implies !is_misleading(
                    #[trigger] after[k],
                ) by {
                    if k < i {
                        assert(after[k] == before[k]);
                    }
                }
            }
        }
    }
    assert(text@.take(text@.len() as int) =~= text@);
    (bytes, wide, misleading)
}

/// The text that UTF-8 stands for, unless it is not certain to be that; a mark
/// makes it certain.
fn read_utf8(bytes: Vec<u8>, marked: bool) -> (r: Option<Vec<u8>>)
    ensures
        match r {
            Some(text) => valid_utf8(bytes@) && text@ == bytes_for(decode_utf8(bytes@)),
            None => true,
        },
        r is Some == if marked {
            valid_utf8(bytes@)
        } else {
            surely_utf8(bytes@)
        },
{
    match utf8_text(bytes) {
        Ok(text) => {
            let (stand, wide, misleading) = stand_ins(text.as_str());
            if marked || (wide >= 5 && !misleading) {
                Some(stand)
            } else {
                None
            }
        },
        Err(_) => None,
    }
}

/// ASCII text without its escape sequences.
fn unescape(bytes: &[u8]) -> (text: Vec<u8>)
    ensures
        text@ == unescaped(bytes@, true),
{
    let n: usize = bytes.len();
    let mut text: Vec<u8> = Vec::new();
    let mut latin: bool = true;
    let mut i: usize = 0;
    assert(bytes@.skip(0) =~= bytes@);
    assert(text@ + unescaped(bytes@, true) =~= unescaped(bytes@, true));
    while i < n
        invariant
            i <= n,
            n == bytes@.len(),
            text@ + unescaped(bytes@.skip(i as int), latin) == unescaped(bytes@, true),
        decreases n - i,
    {
        let b: u8 = bytes[i];
        let ghost rest = bytes@.skip(i as int);
        let ghost before = text@;
        assert(rest[0] == b);
        if b == ESCAPE && n - i >= 3 {
            assert(rest.skip(3) =~= bytes@.skip(i + 3));
            assert(rest[1] == bytes@[i + 1] && rest[2] == bytes@[i + 2]);
            latin = bytes[i + 1] == 0x28 && (bytes[i + 2] == 0x42 || bytes[i + 2] == 0x4a);
            i = i + 3;
        } else {
            text.push(
                if !latin {
                    FOREIGN
                } else if b == 0xa0 {
                    OTHER_SPACE
                } else {
                    b
                },
            );
            assert(rest.skip(1) =~= bytes@.skip(i + 1));
            assert(before + unescaped(rest, latin) =~= text@ + unescaped(rest.skip(1), latin));
            i = i + 1;
        }
    }
    assert(unescaped(bytes@.skip(i as int), latin) =~= Seq::<u8>::empty());
    assert(text@ + Seq::<u8>::empty() =~= text@);
    text
}

/// The text that the bytes are, as far as it matters to the parser.
pub(crate) fn read_text(bytes: &[u8]) -> (text: Vec<u8>)
    ensures
        text@ == text_of(bytes@),
{
    let utf8: [u8; 3] = [0xef, 0xbb, 0xbf];
    let big: [u8; 2] = [0xfe, 0xff];
    let little: [u8; 2] = [0xff, 0xfe];
    assert(bytes@.skip(0) =~= bytes@);
    assert(utf8@ =~= seq![0xefu8, 0xbbu8, 0xbfu8]);
    assert(big@ =~= seq![0xfeu8, 0xffu8]);
    assert(little@ =~= seq![0xffu8, 0xfeu8]);
    if starts_at(bytes, 0, &utf8) {
        let at: usize = mark_length(bytes, &utf8);
        match read_utf8(copy_from(bytes, at), true) {
            Some(text) => text,
            None => Vec::new(),
        }
    } else if starts_at(bytes, 0, &big) {
        let at: usize = mark_length(bytes, &big);
        let text: Vec<u8> = units_from(bytes, at, true);
        assert(text@ =~= text_of(bytes@));
        text
    } else if starts_at(bytes, 0, &little) {
        let at: usize = mark_length(bytes, &little);
        let text: Vec<u8> = units_from(bytes, at, false);
        assert(text@ =~= text_of(bytes@));
        text
    } else {
        match read_utf8(copy_from(bytes, 0), false) {
            Some(text) => text,
            None => if find_high(bytes) {
                copy_from(bytes, 0)
            } else if guess(bytes) == Guess::Unknown {
                Vec::new()
            } else {
                unescape(bytes)
            },
        }
    }
}

/// The bytes from `at` on.
fn copy_from(bytes: &[u8], at: usize) -> (r: Vec<u8>)
    requires
        at <= bytes@.len(),
    ensures
        r@ == bytes@.skip(at as int),
{
    let mut r: Vec<u8> = Vec::new();
    let mut i: usize = at;
    while i < bytes.len()
        invariant
            at <= i <= bytes@.len(),
            r@ == bytes@.subrange(at as int, i as int),
        decreases bytes@.len() - i,
    {
        r.push(bytes[i]);
        i = i + 1;
    }
    r
}

} // verus!
