//! Numbers and timestamps as text.

use vstd::arithmetic::div_mod::lemma_mod_breakdown;
use vstd::prelude::*;

verus! {

/// The character for a decimal digit.
pub open spec fn digit(d: int) -> char {
    (48 + d) as char
}

/// A number in decimal, without leading zeros.
pub open spec fn digits(n: nat) -> Seq<char>
    decreases n,
{
    if n < 10 {
        seq![digit(n as int)]
    } else {
        digits(n / 10).push(digit((n % 10) as int))
    }
}

/// A number in decimal, filled up with zeros on the left to at least `width`
/// characters.
pub open spec fn padded(n: nat, width: nat) -> Seq<char> {
    let zeros: nat = if digits(n).len() < width {
        (width - digits(n).len()) as nat
    } else {
        0
    };
    Seq::new(zeros, |i: int| '0') + digits(n)
}

/// A time in milliseconds the way SubRip files write it: hours, minutes and
/// seconds with colons between them, a comma and the milliseconds.
pub open spec fn timestamp(ms: nat) -> Seq<char> {
    padded(ms / 3_600_000, 2) + ":"@ + padded((ms % 3_600_000) / 60_000, 2) + ":"@ + padded(
        (ms % 60_000) / 1_000,
        2,
    ) + ","@ + padded(ms % 1_000, 3)
}

/// A number in decimal, with a minus sign if it is negative.
pub open spec fn signed_digits(v: int) -> Seq<char> {
    if v < 0 {
        "-"@ + digits((-v) as nat)
    } else {
        digits(v as nat)
    }
}

/// A number in decimal, filled up with zeros after the sign to at least `width`
/// characters.
pub open spec fn signed_padded(v: int, width: nat) -> Seq<char> {
    if v < 0 {
        "-"@ + padded((-v) as nat, (width - 1) as nat)
    } else {
        padded(v as nat, width)
    }
}

/// So many whole units of a time, without regard to its sign, from which whole
/// multiples of `cycle` are taken; with the sign of the time.
pub open spec fn signed_part(ms: int, unit: int, cycle: int) -> int {
    if ms < 0 {
        -(((-ms) / unit) % cycle)
    } else {
        (ms / unit) % cycle
    }
}

/// A time in milliseconds the way SubRip files write it. Of a negative time
/// every part that is not zero has a minus sign.
pub open spec fn signed_parts(ms: int) -> Seq<char> {
    let hours = if ms < 0 {
        -((-ms) / 3_600_000)
    } else {
        ms / 3_600_000
    };
    signed_padded(hours, 2) + ":"@ + signed_padded(signed_part(ms, 60_000, 60), 2) + ":"@
        + signed_padded(signed_part(ms, 1_000, 60), 2) + ","@ + signed_padded(
        signed_part(ms, 1, 1_000),
        3,
    )
}

/// A time that is not negative has no signs in it.
pub proof fn law_no_signs_from_zero_on(ms: nat)
    ensures
        signed_parts(ms as int) == timestamp(ms),
{
    lemma_mod_breakdown(ms as int, 60_000, 60);
    lemma_mod_breakdown(ms as int, 1_000, 60);
}

/// A decimal digit as a string.
fn digit_str(d: u64) -> (s: &'static str)
    requires
        d < 10,
    ensures
        s@ == seq![digit(d as int)],
{
    proof {
        reveal_strlit("0");
        reveal_strlit("1");
        reveal_strlit("2");
        reveal_strlit("3");
        reveal_strlit("4");
        reveal_strlit("5");
        reveal_strlit("6");
        reveal_strlit("7");
        reveal_strlit("8");
        reveal_strlit("9");
    }
    let s: &'static str = match d {
        0 => "0",
        1 => "1",
        2 => "2",
        3 => "3",
        4 => "4",
        5 => "5",
        6 => "6",
        7 => "7",
        8 => "8",
        _ => "9",
    };
    assert(s@ =~= seq![digit(d as int)]);
    s
}

/// A number in decimal.
pub fn decimal(n: u64) -> (s: String)
    ensures
        s@ == digits(n as nat),
    decreases n,
{
    if n < 10 {
        digit_str(n).to_string()
    } else {
        let mut s: String = decimal(n / 10);
        s.append(digit_str(n % 10));
        assert(s@ =~= digits(n as nat));
        s
    }
}

/// A number in decimal, filled up with zeros to at least `width` characters.
pub fn padded_decimal(n: u64, width: usize) -> (s: String)
    ensures
        s@ == padded(n as nat, width as nat),
{
    let number: String = decimal(n);
    let len: usize = number.as_str().unicode_len();
    let mut s: String = String::new();
    let mut i: usize = len;
    while i < width
        invariant
            len == digits(n as nat).len(),
            len <= i,
            i <= width || i == len,
            s@ == Seq::new((i - len) as nat, |k: int| '0'),
        decreases width - i,
    {
        proof {
            reveal_strlit("0");
        }
        s.append("0");
        assert(s@ =~= Seq::new((i + 1 - len) as nat, |k: int| '0'));
        i = i + 1;
    }
    s.append(number.as_str());
    s
}

/// A time in milliseconds the way SubRip files write it.
pub fn timestamp_text(ms: u64) -> (s: String)
    ensures
        s@ == timestamp(ms as nat),
{
    let mut s: String = padded_decimal(ms / 3_600_000, 2);
    s.append(":");
    s.append(padded_decimal((ms % 3_600_000) / 60_000, 2).as_str());
    s.append(":");
    s.append(padded_decimal((ms % 60_000) / 1_000, 2).as_str());
    s.append(",");
    s.append(padded_decimal(ms % 1_000, 3).as_str());
    s
}

/// A text with a line feed at its end, unless it has one.
pub open spec fn ended(text: Seq<char>) -> Seq<char> {
    if text.len() > 0 && text.last() == '\n' {
        text
    } else {
        text + "\n"@
    }
}

/// A text with a line feed at its end, unless it has one.
pub(crate) fn ended_text(text: &str) -> (s: String)
    ensures
        s@ == ended(text@),
{
    let mut s: String = text.to_string();
    let n: usize = text.unicode_len();
    if n == 0 || text.get_char(n - 1) != '\n' {
        s.append("\n");
    }
    s
}

/// Whether two strings are the same.
pub fn same_text(a: &str, b: &str) -> (r: bool)
    ensures
        r == (a@ == b@),
{
    a.to_string() == b.to_string()
}

/// The message of the error with which `String::from_utf8` refuses bytes that
/// are not UTF-8.
pub uninterp spec fn utf8_fault(data: Seq<u8>) -> Seq<char>;

/// `String::from_utf8`: the text that the bytes encode, or the message of the
/// error if they are not UTF-8.
#[verifier::external_body]
pub(crate) fn utf8_text(data: Vec<u8>) -> (r: Result<String, String>)
    ensures
        r is Ok <==> vstd::utf8::valid_utf8(data@),
        r matches Ok(s) ==> s@ == vstd::utf8::decode_utf8(data@),
        r matches Err(e) ==> e@ == utf8_fault(data@),
{
    String::from_utf8(data).map_err(|e| e.to_string())
}

/// What `String::from_utf8_lossy` makes of the bytes.
pub uninterp spec fn lossy_utf8(data: Seq<u8>) -> Seq<char>;

/// `String::from_utf8_lossy`: the text that the bytes encode, with
/// replacement characters where they are not UTF-8.
#[verifier::external_body]
pub(crate) fn lossy_text(data: &Vec<u8>) -> (s: String)
    ensures
        s@ == lossy_utf8(data@),
        vstd::utf8::valid_utf8(data@) ==> s@ == vstd::utf8::decode_utf8(data@),
{
    String::from_utf8_lossy(data).to_string()
}

} // verus!
