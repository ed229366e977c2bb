//! The alignment of one list of spans to another, as the `alass_core` crate
//! computes it.
//!
//! Which shifts `alass_core` finds is left to it. Its arithmetic is on 64-bit
//! integers, so that the library stays within bounds on times and lengths for
//! which no intermediate result can overflow.

use crate::binary64::{
    law_cut_off_is_toward_zero, lemma_size_nonnegative, lemma_size_order, Binary64, EXPONENT_UNIT,
    INFINITY, SIGN,
};
use crate::rounding::{lemma_two_to_sum, two_to};
use crate::time_span::TimeSpan;
use vstd::arithmetic::mul::{
    lemma_mul_inequality, lemma_mul_is_commutative, lemma_mul_upper_bound,
};
use vstd::prelude::*;

verus! {

/// No time that is handed to the aligner lies farther from zero than this
/// many milliseconds.
pub const ALIGN_LIMIT_MS: i64 = 0x2_0000_0000_0000;

/// The greatest shift that the aligner may find.
pub const MAX_DELTA_MS: i64 = 0x8_0000_0000_0002;

/// No list that is handed to the aligner is longer than this.
pub const ALIGN_MAX_SPANS: usize = 0x1000_0000;

/// How far the speed parameter, times the number of spans that are aligned,
/// may go.
pub const MAX_TOTAL_SPEED: u64 = 0x1_0000_0000;

/// How far the split penalty, times the number of spans that are aligned, may
/// go: a penalty of 1000 may go with the longest list.
pub const MAX_TOTAL_PENALTY: u64 = 0x3e_9000_0000;

/// The pattern of `2^31`, the greatest size of a penalty or a speed parameter.
pub const MAX_WEIGHT_BITS: u64 = 0x41e0_0000_0000_0000;

/// A list of spans that the aligner takes.
pub open spec fn alignable(spans: Seq<TimeSpan>) -> bool {
    &&& spans.len() <= ALIGN_MAX_SPANS
    &&& forall|i: int|
        0 <= i < spans.len() ==> (#[trigger] spans[i]).ordered() && spans[i].within(
            ALIGN_LIMIT_MS as int,
        )
}

/// Whether the aligner takes a list of spans.
pub fn check_spans(spans: &[TimeSpan]) -> (r: bool)
    ensures
        r == alignable(spans@),
{
    let n: usize = spans.len();
    if n > ALIGN_MAX_SPANS {
        return false;
    }
    let mut i: usize = 0;
    while i < n
        invariant
            i <= n,
            n == spans@.len(),
            n <= ALIGN_MAX_SPANS,
            forall|k: int|
                0 <= k < i ==> (#[trigger] spans@[k]).ordered() && spans@[k].within(
                    ALIGN_LIMIT_MS as int,
                ),
        decreases n - i,
    {
        let s: TimeSpan = spans[i];
        if s.start > s.end || s.start < -ALIGN_LIMIT_MS || s.end > ALIGN_LIMIT_MS {
            assert(!(spans@[i as int].ordered() && spans@[i as int].within(ALIGN_LIMIT_MS as int)));
            return false;
        }
        i = i + 1;
    }
    true
}

/// A whole number that the size of `w`, up to `2^31`, does not exceed.
pub open spec fn size_above(w: Binary64) -> int {
    if w.as_i32() < 0 {
        1 - w.as_i32()
    } else {
        1 + w.as_i32()
    }
}

/// A split penalty that the aligner takes for a list of `n` spans. It stands
/// for as many thousandths of the best score that there can be, and its
/// arithmetic sets a limit to that. A negative one is a reward, which may be
/// given once for every span. What is no number counts as zero.
pub open spec fn is_penalty(p: Binary64, n: nat) -> bool {
    p.is_nan() || {
        &&& p.unsigned() <= MAX_WEIGHT_BITS
        &&& if p.rank() < 0 {
            size_above(p) * n * n <= MAX_TOTAL_PENALTY
        } else {
            size_above(p) * n <= MAX_TOTAL_PENALTY
        }
    }
}

/// A speed parameter that the aligner takes for a list of `n` spans. For every
/// span the aligner may be off by a twentieth of its size, so that the
/// arithmetic sets a limit to their product. What is no number counts as zero.
pub open spec fn is_speed(s: Binary64, n: nat) -> bool {
    s.is_nan() || {
        &&& s.unsigned() <= MAX_WEIGHT_BITS
        &&& size_above(s) * n <= MAX_TOTAL_SPEED
    }
}

/// The aligner takes every list of less than 200 million spans that lie within
/// ten thousand years of zero and end no earlier than they start. It takes none
/// with a span that ends before it starts, or lies 20 thousand years from zero.
pub proof fn law_usual_lists_are_taken(spans: Seq<TimeSpan>, i: int)
    ensures
        spans.len() < 200_000_000 && (forall|k: int|
            0 <= k < spans.len() ==> -315_576_000_000_000 <= (#[trigger] spans[k]).start
                <= spans[k].end <= 315_576_000_000_000) ==> alignable(spans),
        alignable(spans) && 0 <= i < spans.len() ==> -631_152_000_000_000 < spans[i].start
            <= spans[i].end < 631_152_000_000_000,
{
}

/// Every penalty from 0 to 1000 may go with a list of any length, and so may
/// every speed parameter of less than 15.
pub proof fn law_usual_settings_are_taken(w: Binary64, n: nat)
    requires
        w.is_finite(),
        0 as real <= w.value(),
        n <= ALIGN_MAX_SPANS,
    ensures
        w.value() <= 1000 as real ==> is_penalty(w, n),
        w.value() < 15 as real ==> is_speed(w, n),
{
    if w.value() <= 1000 as real {
        let most = Binary64 { bits: MAX_WEIGHT_BITS };
        lemma_size_nonnegative(w);
        assert(most.size() > 1000 as real) by {
            assert(most.unsigned() / (EXPONENT_UNIT as int) == 0x41e);
            assert(most.unit() == -21);
            assert(most.significand() == EXPONENT_UNIT);
            lemma_two_to_sum(-21, 21);
            assert(two_to(21) == 0x20_0000int as real) by {
                reveal_with_fuel(two_to, 22);
            }
            let u = two_to(-21);
            assert(u * (0x20_0000int as real) == 1 as real);
            assert(most.size() == (0x10_0000_0000_0000int as real) * u);
        }
        if w.unsigned() > most.unsigned() {
            lemma_size_order(most, w);
        }
        law_cut_off_is_toward_zero(w);
        let above = size_above(w);
        lemma_mul_upper_bound(above, 1001, n as int, ALIGN_MAX_SPANS as int);
        if above <= 15 {
            lemma_mul_upper_bound(above, 15, n as int, ALIGN_MAX_SPANS as int);
        }
    }
}

/// A penalty for a list is one for every shorter list.
pub proof fn lemma_penalty_of_fewer(p: Binary64, fewer: nat, n: nat)
    requires
        is_penalty(p, n),
        fewer <= n,
    ensures
        is_penalty(p, fewer),
{
    let a = size_above(p);
    lemma_mul_inequality(fewer as int, n as int, a);
    lemma_mul_is_commutative(a, fewer as int);
    lemma_mul_is_commutative(a, n as int);
    lemma_mul_inequality(fewer as int, n as int, a * fewer);
    lemma_mul_is_commutative(a * fewer, fewer as int);
    lemma_mul_is_commutative(a * fewer, n as int);
    lemma_mul_inequality(a * fewer, a * n, n as int);
}

/// A whole number that the size of a number does not exceed.
fn find_size_above(w: Binary64) -> (r: u64)
    ensures
        r == size_above(w),
        0 < r <= 0x8000_0001,
{
    let whole: i64 = w.to_i32() as i64;
    if whole < 0 {
        (1 - whole) as u64
    } else {
        (1 + whole) as u64
    }
}

/// Whether `p` is a split penalty that the aligner takes for `n` spans.
pub fn check_penalty(p: Binary64, n: usize) -> (r: bool)
    requires
        n <= ALIGN_MAX_SPANS,
    ensures
        r == is_penalty(p, n as nat),
{
    let unsigned: u64 = if p.bits >= SIGN {
        p.bits - SIGN
    } else {
        p.bits
    };
    if unsigned > INFINITY {
        return true;
    }
    if unsigned > MAX_WEIGHT_BITS {
        return false;
    }
    let above: u64 = find_size_above(p);
    proof {
        lemma_mul_upper_bound(above as int, 0x8000_0001, n as int, 0x1000_0000);
        lemma_mul_upper_bound(above * n, 0x800_0000_1000_0000, n as int, 0x1000_0000);
    }
    let total: u128 = above as u128 * n as u128;
    if p.bits > SIGN {
        total * (n as u128) <= MAX_TOTAL_PENALTY as u128
    } else {
        total <= MAX_TOTAL_PENALTY as u128
    }
}

/// Whether `s` is a speed parameter that the aligner takes for `n` spans.
pub fn check_speed(s: Binary64, n: usize) -> (r: bool)
    requires
        n <= ALIGN_MAX_SPANS,
    ensures
        r == is_speed(s, n as nat),
{
    let unsigned: u64 = if s.bits >= SIGN {
        s.bits - SIGN
    } else {
        s.bits
    };
    if unsigned > INFINITY {
        return true;
    }
    if unsigned > MAX_WEIGHT_BITS {
        return false;
    }
    let above: u64 = find_size_above(s);
    proof {
        lemma_mul_upper_bound(above as int, 0x8000_0001, n as int, 0x1000_0000);
    }
    let total: u128 = above as u128 * n as u128;
    total <= MAX_TOTAL_SPEED as u128
}

/// What `alass_core::align` returns for these arguments, with the standard
/// scoring: the shift of every span of the list in milliseconds, and the
/// score.
pub uninterp spec fn alignment(
    reference: Seq<TimeSpan>,
    list: Seq<TimeSpan>,
    penalty: Binary64,
    speed: Option<Binary64>,
) -> (Seq<i64>, Binary64);

/// `alass_core::align`: there is one shift for every span of the list, and
/// none is greater than from one end of the permitted times to the other and
/// back. Spans that end before they start, on which the call
/// panics, are left out, and so are times, lengths, penalties and speed
/// parameters on which its arithmetic could overflow.
#[verifier::external_body]
pub(crate) fn align(
    reference: &Vec<TimeSpan>,
    list: &Vec<TimeSpan>,
    penalty: Binary64,
    speed: Option<Binary64>,
) -> (r: (Vec<i64>, Binary64))
    requires
        alignable(reference@),
        alignable(list@),
        is_penalty(penalty, list@.len()),
        speed matches Some(s) ==> is_speed(s, list@.len()),
    ensures
        (r.0@, r.1) == alignment(reference@, list@, penalty, speed),
        r.0@.len() == list@.len(),
        forall|i: int|
            0 <= i < r.0@.len() ==> -MAX_DELTA_MS <= #[trigger] r.0@[i] <= MAX_DELTA_MS,
{
    let (deltas, score) = alass_core::align(
        &reference.iter().map(|s| alass_core::TimeSpan::new(s.start.into(), s.end.into())).collect::<Vec<_>>(),
        &list.iter().map(|s| alass_core::TimeSpan::new(s.start.into(), s.end.into())).collect::<Vec<_>>(),
        alass_core::Score::from_bits(penalty.bits),
        speed.map(|s| alass_core::Score::from_bits(s.bits)),
        alass_core::standard_scoring,
        alass_core::NoProgressHandler,
    );
    (deltas.iter().map(|d| d.as_i64()).collect(), Binary64 { bits: score.to_bits() })
}

/// What `alass_core::get_nosplit_score` returns for these arguments, with the
/// standard scoring.
pub uninterp spec fn nosplit_score(reference: Seq<TimeSpan>, list: Seq<TimeSpan>) -> Binary64;

/// `alass_core::get_nosplit_score`: how well the list fits the reference as
/// it stands. The same inputs are left out as for the alignment itself.
#[verifier::external_body]
pub(crate) fn score_without_splits(reference: &Vec<TimeSpan>, list: &Vec<TimeSpan>) -> (r: Binary64)
    requires
        alignable(reference@),
        alignable(list@),
    ensures
        r == nosplit_score(reference@, list@),
{
    let score = alass_core::get_nosplit_score(
        reference.iter().map(|s| alass_core::TimeSpan::new(s.start.into(), s.end.into())),
        list.iter().map(|s| alass_core::TimeSpan::new(s.start.into(), s.end.into())),
        alass_core::standard_scoring,
    );
    Binary64 { bits: score.to_bits() }
}

} // verus!
