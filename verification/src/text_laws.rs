//! Numbers and timestamps, read again from their text.

use crate::engine::signed_timestamp;
use crate::text::{digit, digits, ended, padded, signed_part, timestamp};
use vstd::arithmetic::div_mod::{lemma_div_denominator, lemma_mod_mod};
use vstd::prelude::*;

verus! {

/// Whether all characters are decimal digits.
pub open spec fn all_digits(text: Seq<char>) -> bool {
    forall|i: int| 0 <= i < text.len() ==> '0' <= #[trigger] text[i] <= '9'
}

/// The number that decimal digits stand for.
pub open spec fn number_in(text: Seq<char>) -> int
    decreases text.len(),
{
    if text.len() == 0 {
        0
    } else {
        10 * number_in(text.drop_last()) + (text.last() as int - '0' as int)
    }
}

/// A number in decimal reads as the number, and begins with a zero only if it
/// is zero.
pub proof fn law_digits_read_back(n: nat)
    ensures
        all_digits(digits(n)),
        number_in(digits(n)) == n,
        digits(n).len() > 0,
        digits(n)[0] == '0' <==> n == 0,
        n == 0 ==> digits(n).len() == 1,
    decreases n,
{
    let text = digits(n);
    if n < 10 {
        assert(text.drop_last() =~= Seq::empty());
        assert(text.last() == digit(n as int));
        assert(number_in(text.drop_last()) == 0);
    } else {
        law_digits_read_back(n / 10);
        let earlier = digits(n / 10);
        assert(text.drop_last() =~= earlier);
        assert(text.last() == digit((n % 10) as int));
        assert(text[0] == earlier[0]);
        assert(number_in(text.drop_last()) == n / 10);
    }
}

/// Zeros in front change nothing.
proof fn lemma_zeros_in_front(zeros: nat, text: Seq<char>)
    ensures
        number_in(Seq::new(zeros, |i: int| '0') + text) == number_in(text),
    decreases text.len(), zeros,
{
    let front = Seq::new(zeros, |i: int| '0');
    let all = front + text;
    if text.len() > 0 {
        lemma_zeros_in_front(zeros, text.drop_last());
        assert(all.drop_last() =~= front + text.drop_last());
        assert(all.last() == text.last());
    } else if zeros > 0 {
        let fewer = (zeros - 1) as nat;
        lemma_zeros_in_front(fewer, text);
        assert(all.drop_last() =~= Seq::new(fewer, |i: int| '0') + text);
        assert(all.last() == '0');
    }
}

/// A number that is filled up with zeros still reads as the number, has at
/// least so many characters, and no zero more than that takes.
pub proof fn law_padding_reads_back(n: nat, width: nat)
    ensures
        all_digits(padded(n, width)),
        number_in(padded(n, width)) == n,
        padded(n, width).len() >= width,
        padded(n, width).len() > width ==> padded(n, width)[0] != '0' || n == 0,
        padded(n, width).len() > width ==> padded(n, width) == digits(n),
{
    law_digits_read_back(n);
    let zeros: nat = if digits(n).len() < width {
        (width - digits(n).len()) as nat
    } else {
        0
    };
    lemma_zeros_in_front(zeros, digits(n));
    if zeros == 0 {
        assert(padded(n, width) =~= digits(n));
    }
}

/// Numbers of at most two, and of at most three digits.
proof fn lemma_short(n: nat)
    ensures
        n < 100 ==> digits(n).len() <= 2,
        n < 1000 ==> digits(n).len() <= 3,
{
    reveal_with_fuel(digits, 4);
}

/// A timestamp ends in two digits for the minutes, two for the seconds and
/// three for the milliseconds, with a colon, a colon and a comma before them;
/// all before that is the hours, in at least two digits. Read as numbers, the
/// parts add up to the time, with less than sixty minutes, sixty seconds and a
/// thousand milliseconds.
pub proof fn law_timestamps_read_back(ms: nat)
    ensures
        ({
            let text = timestamp(ms);
            let n = text.len() as int;
            let hours = text.take(n - 10);
            let minutes = text.subrange(n - 9, n - 7);
            let seconds = text.subrange(n - 6, n - 4);
            let millis = text.subrange(n - 3, n);
            &&& n >= 12
            &&& text[n - 10] == ':' && text[n - 7] == ':' && text[n - 4] == ','
            &&& all_digits(hours) && all_digits(minutes) && all_digits(seconds) && all_digits(
                millis,
            )
            &&& ms == 3_600_000 * number_in(hours) + 60_000 * number_in(minutes) + 1_000
                * number_in(seconds) + number_in(millis)
            &&& number_in(minutes) < 60 && number_in(seconds) < 60 && number_in(millis) < 1_000
            &&& n > 12 ==> text[0] != '0'
        }),
{
    let (h, m, s, f) = (
        ms / 3_600_000,
        (ms % 3_600_000) / 60_000,
        (ms % 60_000) / 1_000,
        ms % 1_000,
    );
    lemma_time_parts(ms);
    law_padding_reads_back(h, 2);
    law_padding_reads_back(m, 2);
    law_padding_reads_back(s, 2);
    law_padding_reads_back(f, 3);
    lemma_short(m);
    lemma_short(s);
    lemma_short(f);
    lemma_pieces(padded(h, 2), padded(m, 2), padded(s, 2), padded(f, 3));
    law_digits_read_back(h);
}

/// A time taken apart.
proof fn lemma_time_parts(ms: nat)
    ensures
        ms == 3_600_000 * (ms / 3_600_000) + 60_000 * ((ms % 3_600_000) / 60_000) + 1_000 * ((ms
            % 60_000) / 1_000) + ms % 1_000,
        (ms % 3_600_000) / 60_000 < 60,
        (ms % 60_000) / 1_000 < 60,
        ms % 1_000 < 1_000,
{
    let (past_hours, past_minutes) = (ms % 3_600_000, ms % 60_000);
    assert(past_hours % 60_000 == past_minutes) by {
        lemma_mod_mod(ms as int, 60_000, 60);
    }
    assert(past_minutes % 1_000 == ms % 1_000) by {
        lemma_mod_mod(ms as int, 1_000, 60);
    }
    assert(ms == 3_600_000 * (ms / 3_600_000) + past_hours);
    assert(past_hours == 60_000 * (past_hours / 60_000) + past_hours % 60_000);
    assert(past_minutes == 1_000 * (past_minutes / 1_000) + past_minutes % 1_000);
}

/// The pieces of a timestamp stand where they belong.
proof fn lemma_pieces(hours: Seq<char>, minutes: Seq<char>, seconds: Seq<char>, millis: Seq<char>)
    requires
        hours.len() >= 2,
        minutes.len() == 2,
        seconds.len() == 2,
        millis.len() == 3,
    ensures
        ({
            let text = hours + ":"@ + minutes + ":"@ + seconds + ","@ + millis;
            let n = text.len() as int;
            &&& n == hours.len() + 10
            &&& text[n - 10] == ':' && text[n - 7] == ':' && text[n - 4] == ','
            &&& text.take(n - 10) == hours
            &&& text.subrange(n - 9, n - 7) == minutes
            &&& text.subrange(n - 6, n - 4) == seconds
            &&& text.subrange(n - 3, n) == millis
            &&& text[0] == hours[0]
        }),
{
    reveal_strlit(":");
    reveal_strlit(",");
    let text = hours + ":"@ + minutes + ":"@ + seconds + ","@ + millis;
    let n = text.len() as int;
    assert(text.take(n - 10) =~= hours);
    assert(text.subrange(n - 9, n - 7) =~= minutes);
    assert(text.subrange(n - 6, n - 4) =~= seconds);
    assert(text.subrange(n - 3, n) =~= millis);
}

/// A negative time is written as the positive one with a minus sign in front.
pub proof fn law_negative_times_have_a_sign(ms: i64)
    requires
        i64::MIN < ms < 0,
    ensures
        signed_timestamp(ms).len() == signed_timestamp((-ms) as i64).len() + 1,
        signed_timestamp(ms)[0] == '-',
        signed_timestamp(ms).skip(1) == signed_timestamp((-ms) as i64),
        signed_timestamp((-ms) as i64) == timestamp((-ms) as nat),
{
    reveal_strlit("-");
    assert(signed_timestamp(ms).skip(1) =~= signed_timestamp((-ms) as i64));
}

/// The parts of a time add up to it, and have its sign.
pub proof fn law_parts_add_up(ms: int)
    ensures
        ({
            let minutes = signed_part(ms, 60_000, 60);
            let seconds = signed_part(ms, 1_000, 60);
            let millis = signed_part(ms, 1, 1_000);
            let rest = ms - 60_000 * minutes - 1_000 * seconds - millis;
            &&& rest % 3_600_000 == 0
            &&& ms >= 0 ==> 0 <= minutes < 60 && 0 <= seconds < 60 && 0 <= millis < 1_000 && rest
                >= 0
            &&& ms <= 0 ==> 0 >= minutes > -60 && 0 >= seconds > -60 && 0 >= millis > -1_000
                && rest <= 0
        }),
{
    let size = if ms < 0 {
        -ms
    } else {
        ms
    };
    lemma_size_parts(size);
    let (m, s, f) = ((size / 60_000) % 60, (size / 1_000) % 60, (size / 1) % 1_000);
    let whole = 3_600_000 * (size / 3_600_000);
    if ms < 0 {
        assert(signed_part(ms, 60_000, 60) == -m);
        assert(signed_part(ms, 1_000, 60) == -s);
        assert(signed_part(ms, 1, 1_000) == -f);
        assert(ms - 60_000 * (-m) - 1_000 * (-s) - (-f) == -whole);
    } else {
        assert(ms - 60_000 * m - 1_000 * s - f == whole);
    }
}

/// A number of milliseconds in hours, minutes, seconds and the rest.
proof fn lemma_size_parts(size: int)
    requires
        size >= 0,
    ensures
        size == 3_600_000 * (size / 3_600_000) + 60_000 * ((size / 60_000) % 60) + 1_000 * ((size
            / 1_000) % 60) + (size / 1) % 1_000,
        0 <= (size / 60_000) % 60 < 60,
        0 <= (size / 1_000) % 60 < 60,
        0 <= (size / 1) % 1_000 < 1_000,
        size / 3_600_000 >= 0,
{
    let seconds = size / 1_000;
    let minutes = seconds / 60;
    lemma_div_denominator(size, 1_000, 60);
    lemma_div_denominator(size, 60_000, 60);
    assert(size / 60_000 == minutes);
    assert(size / 3_600_000 == minutes / 60);
    assert(size / 1 == size);
    assert(size == 1_000 * seconds + size % 1_000);
    assert(seconds == 60 * minutes + seconds % 60);
    assert(minutes == 60 * (minutes / 60) + minutes % 60);
}

/// A text that is ended is the text, with a line feed at its end, and only one
/// that was missing is added.
pub proof fn law_ended_text_ends_in_a_line_feed(text: Seq<char>)
    ensures
        ended(text).len() > 0,
        ended(text).last() == '\n',
        text.is_prefix_of(ended(text)),
        ended(text).len() <= text.len() + 1,
        text.len() > 0 && text.last() == '\n' ==> ended(text) == text,
        ended(ended(text)) == ended(text),
{
    reveal_strlit("\n");
}

} // verus!
