//! Reading numerals and times off lines of text.
//!
//! Text is a sequence of bytes here, as [`crate::encoding::text_of`] gives it.

use vstd::prelude::*;

verus! {

// ---------------------------------------------------------------------------
// Characters
// ---------------------------------------------------------------------------

/// Kinds of characters.
#[derive(Clone, Copy, Debug, PartialEq, Eq, Structural)]
pub enum Kind {
    /// White space of any sort.
    Space,
    /// A space or a tab.
    Blank,
    /// A decimal digit.
    Digit,
    /// A decimal digit or a colon.
    Clock,
}

/// A decimal digit.
pub open spec fn is_digit(b: u8) -> bool {
    0x30 <= b <= 0x39
}

/// White space of any sort.
pub open spec fn is_space(b: u8) -> bool {
    b == 0x20 || 9 <= b <= 13
}

/// Whether a character is of the kind.
pub open spec fn is_of(kind: Kind, b: u8) -> bool {
    match kind {
        Kind::Space => is_space(b),
        Kind::Blank => b == 0x20 || b == 9,
        Kind::Digit => is_digit(b),
        Kind::Clock => is_digit(b) || b == 0x3a,
    }
}

/// Whether a character is of the kind.
pub(crate) fn test_kind(kind: Kind, b: u8) -> (r: bool)
    ensures
        r == is_of(kind, b),
{
    match kind {
        Kind::Space => b == 0x20 || 9 <= b && b <= 13,
        Kind::Blank => b == 0x20 || b == 9,
        Kind::Digit => 0x30 <= b && b <= 0x39,
        Kind::Clock => 0x30 <= b && b <= 0x3a,
    }
}

/// Where the run of characters of the kind that begins at `i` ends.
pub open spec fn skip(text: Seq<u8>, i: int, kind: Kind) -> int
    decreases text.len() - i,
{
    if 0 <= i < text.len() && is_of(kind, text[i]) {
        skip(text, i + 1, kind)
    } else {
        i
    }
}

/// Where the run of characters of the kind that begins at `i` ends.
pub(crate) fn skip_run(text: &[u8], i: usize, kind: Kind) -> (r: usize)
    requires
        i <= text@.len(),
    ensures
        i <= r <= text@.len() <= usize::MAX,
        r == skip(text@, i as int, kind),
{
    let n: usize = text.len();
    let mut j: usize = i;
    while j < n && test_kind(kind, text[j])
        invariant
            i <= j <= n,
            n == text@.len(),
            skip(text@, j as int, kind) == skip(text@, i as int, kind),
        decreases text@.len() - j,
    {
        j = j + 1;
    }
    j
}

/// Where the white space that ends before `j` begins.
pub open spec fn skip_back(text: Seq<u8>, j: int) -> int
    decreases j,
{
    if 0 < j <= text.len() && is_space(text[j - 1]) {
        skip_back(text, j - 1)
    } else {
        j
    }
}

/// The text without white space around it.
pub open spec fn trimmed(text: Seq<u8>) -> Seq<u8> {
    let rest = text.skip(skip(text, 0, Kind::Space));
    rest.take(skip_back(rest, rest.len() as int))
}

/// The text without white space around it.
pub(crate) fn trim(text: &[u8]) -> (r: Vec<u8>)
    ensures
        r@ == trimmed(text@),
{
    let mut i: usize = skip_run(text, 0, Kind::Space);
    let ghost rest = text@.skip(i as int);
    let mut r: Vec<u8> = Vec::new();
    let ghost first = i;
    while i < text.len()
        invariant
            first <= i <= text@.len(),
            r@ == text@.subrange(first as int, i as int),
        decreases text@.len() - i,
    {
        r.push(text[i]);
        i = i + 1;
    }
    assert(r@ =~= rest);
    assert(rest.take(rest.len() as int) =~= rest);
    while r.len() > 0 && test_kind(Kind::Space, r[r.len() - 1])
        invariant
            r@.len() <= rest.len(),
            r@ == rest.take(r@.len() as int),
            skip_back(rest, r@.len() as int) == skip_back(rest, rest.len() as int),
        decreases r@.len(),
    {
        assert(r@[r@.len() - 1] == rest[r@.len() - 1]);
        r.pop();
        assert(r@ =~= rest.take(r@.len() as int));
    }
    proof {
        if r@.len() > 0 {
            assert(r@[r@.len() - 1] == rest[r@.len() - 1]);
        }
    }
    r
}

// ---------------------------------------------------------------------------
// Lines and fields
// ---------------------------------------------------------------------------

/// The text cut at every one of the given marks, which are left out.
pub open spec fn cut(text: Seq<u8>, marks: Seq<u8>) -> Seq<Seq<u8>>
    decreases text.len(),
{
    if text.len() == 0 {
        seq![Seq::empty()]
    } else {
        let before = cut(text.drop_last(), marks);
        if marks.contains(text.last()) {
            before.push(Seq::empty())
        } else {
            before.drop_last().push(before.last().push(text.last()))
        }
    }
}

/// The texts that a list holds.
pub open spec fn texts(list: Seq<Vec<u8>>) -> Seq<Seq<u8>> {
    Seq::new(list.len(), |i: int| list[i]@)
}

/// The text cut at every one of the given marks.
pub(crate) fn cut_at(text: &[u8], marks: &[u8]) -> (r: Vec<Vec<u8>>)
    ensures
        texts(r@) == cut(text@, marks@),
        r@.len() > 0,
{
    let mut done: Vec<Vec<u8>> = Vec::new();
    let mut last: Vec<u8> = Vec::new();
    let mut i: usize = 0;
    assert(texts(done@).push(last@) =~= cut(text@.take(0), marks@));
    while i < text.len()
        invariant
            i <= text@.len(),
            texts(done@).push(last@) == cut(text@.take(i as int), marks@),
        decreases text@.len() - i,
    {
        let b: u8 = text[i];
        let ghost before = texts(done@).push(last@);
        let ghost list = texts(done@);
        let ghost tail = last@;
        assert(text@.take(i + 1).drop_last() =~= text@.take(i as int));
        assert(before.drop_last() =~= list);
        let mut marked: bool = false;
        let mut k: usize = 0;
        while k < marks.len() && !marked
            invariant
                k <= marks@.len(),
                marked ==> marks@.contains(b),
                !marked ==> forall|m: int| 0 <= m < k ==> #[trigger] marks@[m] != b,
            decreases marks@.len() - k,
        {
            if marks[k] == b {
                assert(marks@[k as int] == b);
                marked = true;
            }
            k = k + 1;
        }
        if marked {
            done.push(last);
            last = Vec::new();
            assert(texts(done@) =~= before);
        } else {
            last.push(b);
            assert(texts(done@) =~= list);
        }
        i = i + 1;
    }
    assert(text@.take(i as int) =~= text@);
    let ghost list = texts(done@);
    let ghost tail = last@;
    done.push(last);
    assert(texts(done@) =~= list.push(tail));
    done
}

// ---------------------------------------------------------------------------
// Numerals
// ---------------------------------------------------------------------------

/// What stands at some place of a text.
pub enum Scan {
    /// Not what is looked for.
    Mismatch,
    /// A numeral that no 64-bit integer holds.
    TooLarge,
    /// A number that ends before `end`.
    Read { value: int, end: int },
}

/// What a scan finds.
pub enum Scanned {
    /// Not what is looked for.
    Mismatch,
    /// A numeral that no 64-bit integer holds.
    TooLarge,
    /// A number that ends before `end`.
    Read { value: i64, end: usize },
}

impl View for Scanned {
    type V = Scan;

    open spec fn view(&self) -> Scan {
        match *self {
            Scanned::Mismatch => Scan::Mismatch,
            Scanned::TooLarge => Scan::TooLarge,
            Scanned::Read { value, end } => Scan::Read { value: value as int, end: end as int },
        }
    }
}

/// The number that the digits from `i` up to `j` write.
pub open spec fn digits_value(text: Seq<u8>, i: int, j: int) -> int
    decreases j - i,
{
    if j <= i {
        0
    } else {
        10 * digits_value(text, i, j - 1) + (text[j - 1] - 0x30)
    }
}

/// The numeral at `i`, with a minus sign or without.
pub open spec fn numeral_at(text: Seq<u8>, i: int) -> Scan {
    let signed = i < text.len() && text[i] == 0x2d;
    let first = if signed {
        i + 1
    } else {
        i
    };
    let end = skip(text, first, Kind::Digit);
    let size = digits_value(text, first, end);
    if end == first {
        Scan::Mismatch
    } else if size > i64::MAX {
        Scan::TooLarge
    } else {
        Scan::Read {
            value: if signed {
                -size
            } else {
                size
            },
            end,
        }
    }
}

/// The number that a run of digits writes, unless it is more than `limit`, and
/// where the run ends.
fn read_digits(text: &[u8], i: usize, limit: u64) -> (r: (Option<u64>, usize))
    requires
        i <= text@.len(),
    ensures
        i <= r.1 <= text@.len(),
        r.1 == skip(text@, i as int, Kind::Digit),
        match r.0 {
            Some(size) => size == digits_value(text@, i as int, r.1 as int) && size <= limit,
            None => digits_value(text@, i as int, r.1 as int) > limit,
        },
{
    let mut size: u64 = 0;
    let mut large: bool = false;
    let mut j: usize = i;
    while j < text.len() && test_kind(Kind::Digit, text[j])
        invariant
            i <= j <= text@.len(),
            skip(text@, j as int, Kind::Digit) == skip(text@, i as int, Kind::Digit),
            size <= limit,
            large ==> digits_value(text@, i as int, j as int) > limit,
            !large ==> digits_value(text@, i as int, j as int) == size,
        decreases text@.len() - j,
    {
        let digit: u8 = text[j] - 0x30;
        j = j + 1;
        if !large {
            let next: u128 = 10 * (size as u128) + digit as u128;
            if next > limit as u128 {
                large = true;
            } else {
                size = next as u64;
            }
        }
    }
    if large {
        (None, j)
    } else {
        (Some(size), j)
    }
}

/// The numeral at `i`.
pub(crate) fn read_numeral(text: &[u8], i: usize) -> (r: Scanned)
    requires
        i <= text@.len(),
    ensures
        r@ == numeral_at(text@, i as int),
        r matches Scanned::Read { end, .. } ==> i < end <= text@.len(),
        r matches Scanned::Read { value, .. } ==> value > i64::MIN,
{
    let signed: bool = i < text.len() && text[i] == 0x2d;
    let first: usize = if signed {
        i + 1
    } else {
        i
    };
    let (size, end) = read_digits(text, first, 0x7fff_ffff_ffff_ffff);
    if end == first {
        Scanned::Mismatch
    } else {
        match size {
            None => Scanned::TooLarge,
            Some(size) => Scanned::Read {
                value: if signed {
                    -(size as i64)
                } else {
                    size as i64
                },
                end,
            },
        }
    }
}

/// Whether the text is a numeral, with a sign or without, that a 64-bit
/// integer holds.
pub open spec fn is_integer(text: Seq<u8>) -> bool {
    let signed = text.len() > 0 && (text[0] == 0x2d || text[0] == 0x2b);
    let first: int = if signed {
        1
    } else {
        0
    };
    let size = digits_value(text, first, text.len() as int);
    &&& text.len() > first
    &&& skip(text, first, Kind::Digit) == text.len()
    &&& size <= if text[0] == 0x2d {
        i64::MAX + 1
    } else {
        i64::MAX as int
    }
}

/// Whether the text is a numeral, with a sign or without, that a 64-bit
/// integer holds.
pub(crate) fn test_integer(text: &[u8]) -> (r: bool)
    ensures
        r == is_integer(text@),
{
    let n: usize = text.len();
    let first: usize = if n > 0 && (text[0] == 0x2d || text[0] == 0x2b) {
        1
    } else {
        0
    };
    if n <= first || skip_run(text, first, Kind::Digit) != n {
        return false;
    }
    let limit: u64 = if text[0] == 0x2d {
        0x8000_0000_0000_0000
    } else {
        0x7fff_ffff_ffff_ffff
    };
    read_digits(text, first, limit).0.is_some()
}

// ---------------------------------------------------------------------------
// Times
// ---------------------------------------------------------------------------

/// How the fraction of a second is written.
#[derive(Clone, Copy, Debug, PartialEq, Eq, Structural)]
pub enum Style {
    /// Thousandths after a comma.
    Comma,
    /// Hundredths after a full stop or a colon.
    Stop,
    /// Thousandths after a colon.
    Colon,
}

/// What a look for hours, minutes, seconds and a fraction finds.
pub enum Clock {
    /// Not all of them.
    Mismatch,
    /// One that no 64-bit integer holds.
    TooLarge,
    /// All of them, ending before `end`, whether their milliseconds can be
    /// computed, and whether the result can be used.
    Read { fits: bool, usable: bool, end: int },
}

/// What a look for hours, minutes, seconds and a fraction found.
pub enum ClockRead {
    Mismatch,
    TooLarge,
    Read { fits: bool, usable: bool, end: usize },
}

impl View for ClockRead {
    type V = Clock;

    open spec fn view(&self) -> Clock {
        match *self {
            ClockRead::Mismatch => Clock::Mismatch,
            ClockRead::TooLarge => Clock::TooLarge,
            ClockRead::Read { fits, usable, end } => Clock::Read { fits, usable, end: end as int },
        }
    }
}

/// Whether a 64-bit integer holds the number.
pub open spec fn holds(x: int) -> bool {
    i64::MIN <= x <= i64::MAX
}

/// Whether the character may stand between part `k` and the one after it.
pub open spec fn is_mark(style: Style, k: int, b: u8) -> bool {
    if k < 2 {
        b == 0x3a
    } else {
        match style {
            Style::Comma => b == 0x2c,
            Style::Stop => b == 0x2e || b == 0x3a,
            Style::Colon => b == 0x3a,
        }
    }
}

/// Whether the milliseconds can be used: a time with hundredths is negated when
/// it is written, and to the last one with colons only a minute is added.
pub open spec fn is_usable(style: Style, ms: int) -> bool {
    match style {
        Style::Comma => true,
        Style::Stop => ms > i64::MIN,
        Style::Colon => ms + 60_000 <= i64::MAX,
    }
}

/// The parts of a time from part `k` on, which stand at `i`. The parts before
/// it make up `sum` of the unit before; `fits` tells whether all that was
/// computed so far stayed within 64 bits.
pub open spec fn clock_from(
    text: Seq<u8>,
    i: int,
    style: Style,
    k: int,
    sum: int,
    fits: bool,
) -> Clock
    decreases 4 - k,
{
    match numeral_at(text, i) {
        Scan::Mismatch => Clock::Mismatch,
        Scan::TooLarge => Clock::TooLarge,
        Scan::Read { value, end } => {
            let part = if k >= 3 && style is Stop {
                10 * value
            } else {
                value
            };
            let scaled = if k >= 3 {
                1000 * sum
            } else {
                60 * sum
            };
            let fit = fits && holds(part) && holds(scaled) && holds(part + scaled);
            if k >= 3 {
                Clock::Read { fits: fit, usable: is_usable(style, part + scaled), end }
            } else if end < text.len() && is_mark(style, k, text[end]) {
                clock_from(text, end + 1, style, k + 1, part + scaled, fit)
            } else {
                Clock::Mismatch
            }
        },
    }
}

/// The time at `i`.
pub open spec fn clock_at(text: Seq<u8>, i: int, style: Style) -> Clock {
    clock_from(text, i, style, 0, 0, true)
}

/// Whether the character may stand between part `k` and the one after it.
fn test_mark(style: Style, k: u8, b: u8) -> (r: bool)
    ensures
        r == is_mark(style, k as int, b),
{
    if k < 2 {
        b == 0x3a
    } else {
        match style {
            Style::Comma => b == 0x2c,
            Style::Stop => b == 0x2e || b == 0x3a,
            Style::Colon => b == 0x3a,
        }
    }
}

/// Whether a 64-bit integer holds the number.
fn test_holds(x: i128) -> (r: bool)
    ensures
        r == holds(x as int),
{
    -0x8000_0000_0000_0000 <= x && x <= 0x7fff_ffff_ffff_ffff
}

/// The time at `i`.
pub(crate) fn read_clock(text: &[u8], i: usize, style: Style) -> (r: ClockRead)
    requires
        i <= text@.len(),
    ensures
        r@ == clock_at(text@, i as int, style),
        r matches ClockRead::Read { end, .. } ==> i < end <= text@.len(),
{
    let mut at: usize = i;
    let mut k: u8 = 0;
    let mut sum: i128 = 0;
    let mut fits: bool = true;
    while k < 3
        invariant
            i <= at <= text@.len(),
            k <= 3,
            k == 0 ==> sum == 0,
            k == 1 ==> -0x7fff_ffff_ffff_ffff <= sum <= 0x7fff_ffff_ffff_ffff,
            k == 2 ==> -61 * 0x7fff_ffff_ffff_ffff <= sum <= 61 * 0x7fff_ffff_ffff_ffff,
            k == 3 ==> -3661 * 0x7fff_ffff_ffff_ffff <= sum <= 3661 * 0x7fff_ffff_ffff_ffff,
            clock_from(text@, at as int, style, k as int, sum as int, fits) == clock_at(
                text@,
                i as int,
                style,
            ),
        decreases 3 - k,
    {
        match read_numeral(text, at) {
            Scanned::Mismatch => {
                return ClockRead::Mismatch;
            },
            Scanned::TooLarge => {
                return ClockRead::TooLarge;
            },
            Scanned::Read { value, end } => {
                if end < text.len() && test_mark(style, k, text[end]) {
                    let scaled: i128 = 60 * sum;
                    let total: i128 = value as i128 + scaled;
                    fits = fits && test_holds(scaled) && test_holds(total);
                    sum = total;
                    at = end + 1;
                    k = k + 1;
                } else {
                    return ClockRead::Mismatch;
                }
            },
        }
    }
    match read_numeral(text, at) {
        Scanned::Mismatch => ClockRead::Mismatch,
        Scanned::TooLarge => ClockRead::TooLarge,
        Scanned::Read { value, end } => {
            let part: i128 = match style {
                Style::Stop => 10 * value as i128,
                _ => value as i128,
            };
            let scaled: i128 = 1000 * sum;
            let total: i128 = part + scaled;
            let usable: bool = match style {
                Style::Comma => true,
                Style::Stop => total > -0x8000_0000_0000_0000,
                Style::Colon => total <= 0x7fff_ffff_ffff_ffff - 60_000,
            };
            ClockRead::Read {
                fits: fits && test_holds(part) && test_holds(scaled) && test_holds(total),
                usable,
                end,
            }
        },
    }
}

} // verus!
