//! Arithmetic on double-precision numbers, carried out on integers.
//!
//! The specification side works over the reals: [`nearest_double`] is the
//! value that a double-precision operation rounds an exact result to. The
//! executable side is [`Dyadic`], a sign, a magnitude and a power of two,
//! whose operations are proved to round every result exactly that way.
//!
//! The exponent range is left unbounded. Every number that the library
//! computes with lies well inside the normal range of a double, where the
//! bounded and the unbounded formats agree.

use crate::reals::{
    lemma_positive_product, lemma_quotient, lemma_quotient_bounds, lemma_quotient_is, lemma_scale,
    lemma_scale_strictly, lemma_times_associates, lemma_times_commutes, lemma_times_distributes,
    lemma_times_exchange, lemma_times_negative, lemma_times_one, lemma_times_zero,
    lemma_whole_product,
};
use vstd::arithmetic::mul::{
    lemma_mul_basics, lemma_mul_inequality, lemma_mul_is_associative, lemma_mul_is_commutative,
    lemma_mul_is_distributive_add_other_way, lemma_mul_upper_bound,
};
use vstd::prelude::*;

verus! {

/// Two to the power `e`, for any integer `e`.
pub open spec fn two_to(e: int) -> real
    decreases (if e >= 0 { e } else { -e }),
{
    if e == 0 {
        1 as real
    } else if e > 0 {
        two_to(e - 1) * (2 as real)
    } else {
        two_to(e + 1) / (2 as real)
    }
}

/// The integer nearest to `x`; of two equally near ones, the even one.
pub open spec fn nearest_even(x: real) -> int {
    let below = x.floor();
    let rest = x - (below as real);
    if rest < (1 as real) / (2 as real) {
        below
    } else if rest > (1 as real) / (2 as real) {
        below + 1
    } else if below % 2 == 0 {
        below
    } else {
        below + 1
    }
}

/// Whether a positive `x` has 53 significant bits above the unit `2^e`.
pub open spec fn in_binade(x: real, e: int) -> bool {
    two_to(e + 52) <= x < two_to(e + 53)
}

/// The exponent of the unit in the last place of a positive `x`.
pub open spec fn unit_exponent(x: real) -> int {
    choose|e: int| in_binade(x, e)
}

/// The double nearest to a positive `x`, ties to the even significand.
pub open spec fn nearest_positive(x: real) -> real {
    let e = unit_exponent(x);
    (nearest_even(x / two_to(e)) as real) * two_to(e)
}

/// The double nearest to `x`, ties to the even significand.
pub open spec fn nearest_double(x: real) -> real {
    if x == 0 as real {
        0 as real
    } else if x > 0 as real {
        nearest_positive(x)
    } else {
        -nearest_positive(-x)
    }
}

/// `x` cut off toward zero.
pub open spec fn toward_zero(x: real) -> int {
    if x >= 0 as real {
        x.floor()
    } else {
        -((-x).floor())
    }
}

/// `x` rounded to the nearest integer, halves away from zero.
pub open spec fn half_away(x: real) -> int {
    if x >= 0 as real {
        (x + (1 as real) / (2 as real)).floor()
    } else {
        -((-x + (1 as real) / (2 as real)).floor())
    }
}

/// The `i64` nearest to `v`.
pub open spec fn saturate_i64(v: int) -> int {
    if v < i64::MIN {
        i64::MIN as int
    } else if v > i64::MAX {
        i64::MAX as int
    } else {
        v
    }
}

/// Powers of two are positive.
pub proof fn lemma_two_to_positive(e: int)
    ensures
        two_to(e) > 0 as real,
    decreases (if e >= 0 { e } else { -e }),
{
    if e > 0 {
        lemma_two_to_positive(e - 1);
    } else if e < 0 {
        lemma_two_to_positive(e + 1);
    }
}

/// Each power of two is twice the one before.
pub proof fn lemma_two_to_step(e: int)
    ensures
        two_to(e + 1) == two_to(e) * (2 as real),
{
}

/// Exponents of factors add up.
pub proof fn lemma_two_to_sum(a: int, b: int)
    ensures
        two_to(a + b) == two_to(a) * two_to(b),
    decreases (if b >= 0 { b } else { -b }),
{
    if b == 0 {
        lemma_times_one(two_to(a));
    } else if b > 0 {
        lemma_two_to_sum(a, b - 1);
        lemma_two_to_step(a + b - 1);
        lemma_two_to_step(b - 1);
        let x = two_to(a);
        let y = two_to(b - 1);
        lemma_times_associates(x, y, 2 as real);
    } else {
        lemma_two_to_sum(a, b + 1);
        lemma_two_to_step(a + b);
        lemma_two_to_step(b);
        let x = two_to(a);
        let y = two_to(b);
        lemma_times_associates(x, y, 2 as real);
    }
}

/// Powers of two grow with their exponents.
pub proof fn lemma_two_to_grows(a: int, b: int)
    requires
        a <= b,
    ensures
        two_to(a) <= two_to(b),
    decreases b - a,
{
    if a < b {
        lemma_two_to_grows(a, b - 1);
        lemma_two_to_step(b - 1);
        lemma_two_to_positive(b - 1);
    }
}

/// The bounds of a significand of 53 bits.
proof fn lemma_two_to_52()
    ensures
        two_to(52) == 0x10_0000_0000_0000int as real,
        two_to(53) == 0x20_0000_0000_0000int as real,
{
    reveal_with_fuel(two_to, 60);
}

/// A power of two with a positive exponent is an even integer.
proof fn lemma_two_to_even(s: int, p: int)
    requires
        s >= 1,
        p as real == two_to(s),
    ensures
        p % 2 == 0,
{
    let h = lemma_two_to_integer(s - 1);
    lemma_two_to_step(s - 1);
    assert((2 * h) as real == p as real);
}

/// A power of two with a non-negative exponent is an integer.
proof fn lemma_two_to_integer(s: int) -> (p: int)
    requires
        s >= 0,
    ensures
        p as real == two_to(s),
        p > 0,
    decreases s,
{
    if s == 0 {
        1
    } else {
        let h = lemma_two_to_integer(s - 1);
        lemma_two_to_step(s - 1);
        assert((2 * h) as real == two_to(s));
        2 * h
    }
}

/// A positive number lies in one binade only.
proof fn lemma_binade_unique(x: real, e: int, f: int)
    requires
        in_binade(x, e),
        in_binade(x, f),
    ensures
        e == f,
{
    if e < f {
        lemma_two_to_grows(e + 53, f + 52);
    } else if f < e {
        lemma_two_to_grows(f + 53, e + 52);
    }
}

/// The binade of a number gives its unit.
proof fn lemma_unit_exponent(x: real, e: int)
    requires
        in_binade(x, e),
    ensures
        unit_exponent(x) == e,
{
    lemma_binade_unique(x, e, unit_exponent(x));
}

/// What rounding does to `(n + f) * 2^k` when `n` is split at `2^s` into a
/// 53-bit quotient `q` and a remainder `r`.
proof fn lemma_round_split(n: int, f: real, k: int, s: int, p: int, q: int, r: int)
    requires
        s >= 1,
        p as real == two_to(s),
        n == q * p + r,
        0 <= r < p,
        0x10_0000_0000_0000 <= q < 0x20_0000_0000_0000,
        0 as real <= f < 1 as real,
    ensures
        nearest_positive(((n as real) + f) * two_to(k)) == (
            if 2 * r > p || (2 * r == p && f != 0 as real) || (2 * r == p && q % 2 == 1) {
                q + 1
            } else {
                q
            }
        ) as real * two_to(k + s),
{
    let x = ((n as real) + f) * two_to(k);
    let u = two_to(k + s);
    let rest = ((r as real) + f) / (p as real);
    let y = (q as real) + rest;
    lemma_two_to_positive(k);
    lemma_two_to_positive(s);
    lemma_two_to_positive(k + s);
    lemma_two_to_sum(k, s);
    lemma_two_to_52();
    lemma_two_to_sum(k + s, 52);
    lemma_two_to_sum(k + s, 53);
    let pr = p as real;
    let qr = q as real;
    let rr = r as real;
    let nr = n as real;
    let t = two_to(k);
    lemma_whole_product(q, p);
    assert(nr == qr * pr + rr);
    assert(rr + 1 as real <= pr);
    assert(rr + f < pr);
    lemma_quotient(rr + f, pr);
    lemma_times_zero(pr);
    lemma_times_one(pr);
    lemma_quotient_bounds(rr + f, pr, 0 as real, 1 as real);
    assert(x == y * u) by {
        lemma_times_distributes(qr, rest, pr);
        lemma_times_commutes(t, pr);
        lemma_times_associates(y, pr, t);
    }
    lemma_quotient_is(x, u, y);
    assert(in_binade(x, k + s)) by {
        assert(qr >= two_to(52));
        assert(y < two_to(53)) by {
            assert(qr + 1 as real <= two_to(53));
        }
        let (lo, hi) = (two_to(52), two_to(53));
        lemma_times_commutes(u, lo);
        lemma_times_commutes(u, hi);
        lemma_scale(lo, y, u);
        lemma_scale_strictly(y, hi, u);
    }
    lemma_unit_exponent(x, k + s);
    assert(y.floor() == q);
    let half = (1 as real) / (2 as real);
    assert((2 as real) * rr == (2 * r) as real);
    assert((2 as real) * (half * pr) == pr) by {
        lemma_times_associates(2 as real, half, pr);
    }
    if rest > half {
        lemma_scale_strictly(half, rest, pr);
    } else if rest < half {
        lemma_scale_strictly(rest, half, pr);
    }
    assert(p % 2 == 0) by {
        lemma_two_to_even(s, p);
    }
    if 2 * r < p {
        assert(2 * r + 2 <= p);
        assert((2 * r + 2) as real <= pr);
    } else if 2 * r > p {
        assert((2 * r) as real > pr);
    }
}

/// A number of at most 53 significant bits is its own nearest double.
proof fn lemma_representable(n: int, k: int)
    requires
        0 < n <= 0x20_0000_0000_0000,
    ensures
        nearest_positive((n as real) * two_to(k)) == (n as real) * two_to(k),
    decreases 0x20_0000_0000_0000 - n,
{
    let x = (n as real) * two_to(k);
    lemma_two_to_positive(k);
    lemma_two_to_52();
    if n == 0x20_0000_0000_0000 {
        let u = two_to(k + 1);
        let nr = n as real;
        lemma_two_to_positive(k + 1);
        lemma_two_to_step(k);
        lemma_two_to_sum(k + 1, 52);
        lemma_two_to_sum(k + 1, 53);
        let lo = two_to(52);
        let hi = two_to(53);
        assert(x == lo * u) by {
            let t = two_to(k);
            lemma_times_associates(lo, 2 as real, t);
            lemma_times_commutes(2 as real, t);
        }
        assert(in_binade(x, k + 1)) by {
            lemma_times_commutes(lo, u);
            lemma_times_commutes(hi, u);
            lemma_scale_strictly(lo, hi, u);
        }
        lemma_unit_exponent(x, k + 1);
        lemma_quotient_is(x, u, lo);
        assert(lo.floor() == 0x10_0000_0000_0000);
    } else if n >= 0x10_0000_0000_0000 {
        let u = two_to(k);
        let nr = n as real;
        lemma_two_to_sum(k, 52);
        lemma_two_to_sum(k, 53);
        let lo = two_to(52);
        let hi = two_to(53);
        assert(in_binade(x, k)) by {
            lemma_times_commutes(lo, u);
            lemma_times_commutes(hi, u);
            lemma_scale(lo, nr, u);
            lemma_scale_strictly(nr, hi, u);
        }
        lemma_unit_exponent(x, k);
        lemma_quotient_is(x, u, nr);
        assert(nr.floor() == n);
    } else {
        lemma_representable(2 * n, k - 1);
        lemma_two_to_step(k - 1);
        let h = two_to(k - 1);
        let nr = n as real;
        assert(((2 * n) as real) == nr * (2 as real));
        lemma_times_associates(nr, 2 as real, h);
        lemma_times_commutes(2 as real, h);
    }
}

/// Every positive number lies in a binade.
proof fn lemma_binade_exists(x: real)
    requires
        x > 0 as real,
    ensures
        in_binade(x, unit_exponent(x)),
{
    let n = x.floor() + 1;
    lemma_two_to_exceeds(n);
    let y = (1 as real) / x;
    lemma_quotient(1 as real, x);
    assert(y > 0 as real) by {
        if y <= 0 as real {
            lemma_scale(y, 0 as real, x);
            lemma_times_zero(x);
        }
    }
    let m = y.floor() + 1;
    lemma_two_to_exceeds(m);
    lemma_two_to_sum(m, -m);
    let (u, v) = (two_to(m), two_to(-m));
    lemma_two_to_positive(-m);
    assert(v <= x) by {
        if v > x {
            lemma_scale_strictly(y, u, x);
            lemma_scale_strictly(x, v, u);
            lemma_times_commutes(x, u);
            lemma_times_commutes(v, u);
        }
    }
    lemma_two_to_positive(n);
    assert(-m < n) by {
        if n <= -m {
            lemma_two_to_grows(n, -m);
        }
    }
    let k = lemma_binade_between(x, -m, n);
    assert(in_binade(x, k - 52));
}

/// A power of two exceeds its exponent.
proof fn lemma_two_to_exceeds(n: int)
    requires
        n >= 0,
    ensures
        two_to(n) >= (n + 1) as real,
    decreases n,
{
    if n > 0 {
        lemma_two_to_exceeds(n - 1);
        lemma_two_to_step(n - 1);
    }
}

/// The powers of two around a number, found between two given ones.
proof fn lemma_binade_between(x: real, lo: int, hi: int) -> (k: int)
    requires
        lo < hi,
        two_to(lo) <= x < two_to(hi),
    ensures
        two_to(k) <= x < two_to(k + 1),
    decreases hi - lo,
{
    if two_to(hi - 1) <= x {
        hi - 1
    } else {
        lemma_binade_between(x, lo, hi - 1)
    }
}

/// Rounding to integers keeps the order.
proof fn lemma_nearest_even_grows(x: real, y: real)
    requires
        x <= y,
    ensures
        nearest_even(x) <= nearest_even(y),
{
    assert(x.floor() <= y.floor());
}

/// Rounding takes no positive number out of its binade, the upper end
/// included.
proof fn lemma_stays_in_binade(x: real)
    requires
        x > 0 as real,
    ensures
        in_binade(x, unit_exponent(x)),
        two_to(unit_exponent(x) + 52) <= nearest_positive(x) <= two_to(unit_exponent(x) + 53),
{
    lemma_binade_exists(x);
    let e = unit_exponent(x);
    let u = two_to(e);
    let (lo, hi) = (two_to(52), two_to(53));
    lemma_two_to_positive(e);
    lemma_two_to_52();
    lemma_two_to_sum(e, 52);
    lemma_two_to_sum(e, 53);
    lemma_times_commutes(u, lo);
    lemma_times_commutes(u, hi);
    lemma_quotient_bounds(x, u, lo, hi);
    let a = x / u;
    let m = nearest_even(a) as real;
    assert(lo <= m && m <= hi) by {
        lemma_nearest_even_grows(lo, a);
        lemma_nearest_even_grows(a, hi);
        assert(nearest_even(lo) == 0x10_0000_0000_0000);
        assert(nearest_even(hi) == 0x20_0000_0000_0000);
    }
    lemma_scale(lo, m, u);
    lemma_scale(m, hi, u);
}

/// Rounding keeps the order of numbers in the same binade.
proof fn lemma_grows_in_binade(x: real, y: real)
    requires
        x > 0 as real,
        x <= y,
        unit_exponent(x) == unit_exponent(y),
    ensures
        nearest_positive(x) <= nearest_positive(y),
{
    let u = two_to(unit_exponent(x));
    let (a, b) = (x / u, y / u);
    lemma_two_to_positive(unit_exponent(x));
    lemma_quotient(x, u);
    lemma_quotient(y, u);
    if b < a {
        lemma_scale_strictly(b, a, u);
    }
    lemma_nearest_even_grows(a, b);
    lemma_scale(nearest_even(a) as real, nearest_even(b) as real, u);
}

/// Rounding keeps the order of positive numbers.
proof fn lemma_nearest_positive_grows(x: real, y: real)
    requires
        x > 0 as real,
        x <= y,
    ensures
        nearest_positive(x) <= nearest_positive(y),
        nearest_positive(x) > 0 as real,
{
    lemma_stays_in_binade(x);
    lemma_stays_in_binade(y);
    let (e, f) = (unit_exponent(x), unit_exponent(y));
    lemma_two_to_positive(e + 52);
    if e == f {
        lemma_grows_in_binade(x, y);
    } else if e < f {
        lemma_two_to_grows(e + 53, f + 52);
    } else {
        lemma_two_to_grows(f + 53, e + 52);
    }
}

/// Rounding keeps the order of numbers.
pub proof fn lemma_nearest_double_grows(x: real, y: real)
    requires
        x <= y,
    ensures
        nearest_double(x) <= nearest_double(y),
{
    if x > 0 as real {
        lemma_nearest_positive_grows(x, y);
    } else if y < 0 as real {
        lemma_nearest_positive_grows(-y, -x);
    } else {
        if x < 0 as real {
            lemma_nearest_positive_grows(-x, -x);
        }
        if y > 0 as real {
            lemma_nearest_positive_grows(y, y);
        }
    }
}

/// Rounding a positive number misses it by no more than one part in `2^53`.
proof fn lemma_nearest_positive_error(x: real)
    requires
        x > 0 as real,
    ensures
        (nearest_positive(x) - x) * (0x20_0000_0000_0000int as real) <= x,
        (x - nearest_positive(x)) * (0x20_0000_0000_0000int as real) <= x,
{
    lemma_binade_exists(x);
    let e = unit_exponent(x);
    let u = two_to(e);
    lemma_two_to_positive(e);
    lemma_two_to_52();
    lemma_two_to_sum(e, 52);
    let a = x / u;
    lemma_quotient(x, u);
    let m = nearest_even(a) as real;
    let half = (1 as real) / (2 as real);
    assert(m - a <= half && a - m <= half);
    lemma_scale(m - a, half, u);
    lemma_scale(a - m, half, u);
    lemma_times_distributes(m, a, u);
    lemma_times_distributes(a, m, u);
}

/// Rounding misses a number by no more than one part in `2^53` of its size.
pub proof fn lemma_nearest_double_error(x: real)
    ensures
        x >= 0 as real ==> (nearest_double(x) - x) * (0x20_0000_0000_0000int as real) <= x,
        x >= 0 as real ==> (x - nearest_double(x)) * (0x20_0000_0000_0000int as real) <= x,
        x <= 0 as real ==> (nearest_double(x) - x) * (0x20_0000_0000_0000int as real) <= -x,
        x <= 0 as real ==> (x - nearest_double(x)) * (0x20_0000_0000_0000int as real) <= -x,
{
    if x > 0 as real {
        lemma_nearest_positive_error(x);
    } else if x < 0 as real {
        lemma_nearest_positive_error(-x);
    }
}

/// A positive number is rounded to a whole multiple of the power of two of
/// which `2^52` to `2^53` make up the number. It is missed by no more than half
/// of this power, and by half only if the multiple is even. A negative number is
/// rounded as the positive one is.
pub proof fn law_rounding_goes_to_the_nearest(x: real) -> (r: (int, int))
    requires
        x > 0 as real,
    ensures
        ({
            let (m, e) = r;
            let unit = two_to(e);
            let rounded = nearest_double(x);
            let two = 2 as real;
            &&& two_to(e + 52) <= x && x < two_to(e + 53)
            &&& rounded == (m as real) * unit
            &&& two * (rounded - x) <= unit && two * (x - rounded) <= unit
            &&& two * (rounded - x) == unit || two * (x - rounded) == unit ==> m % 2 == 0
            &&& nearest_double(-x) == -rounded
        }),
{
    lemma_binade_exists(x);
    let e = unit_exponent(x);
    let u = two_to(e);
    lemma_two_to_positive(e);
    let a = x / u;
    lemma_quotient(x, u);
    let m = nearest_even(a);
    let (y, half) = (m as real, (1 as real) / (2 as real));
    assert(y - a <= half && a - y <= half);
    lemma_scale(y - a, half, u);
    lemma_scale(a - y, half, u);
    lemma_times_distributes(y, a, u);
    lemma_times_distributes(a, y, u);
    if y - a < half {
        lemma_scale_strictly(y - a, half, u);
    }
    if a - y < half {
        lemma_scale_strictly(a - y, half, u);
    }
    (m, e)
}

/// Cutting off goes less than one toward zero. Rounding goes to the nearest
/// integer, and from the middle between two away from zero.
pub proof fn law_integers_from_reals(x: real)
    ensures
        ({
            let (cut, round) = (toward_zero(x) as real, half_away(x) as real);
            let (one, two) = (1 as real, 2 as real);
            &&& x >= 0 as real ==> 0 as real <= cut && cut <= x && x - cut < one
            &&& x <= 0 as real ==> x <= cut && cut <= 0 as real && cut - x < one
            &&& two * (round - x) <= one && two * (x - round) <= one
            &&& x > 0 as real ==> two * (x - round) < one
            &&& x < 0 as real ==> two * (round - x) < one
        }),
{
}

/// What fits in 64 bits stays as it is; what does not becomes the nearest that
/// does.
pub proof fn law_saturation_goes_to_the_nearest(v: int, w: int)
    requires
        i64::MIN <= w <= i64::MAX,
    ensures
        i64::MIN <= saturate_i64(v) <= i64::MAX,
        v <= w ==> v <= saturate_i64(v) <= w,
        v >= w ==> v >= saturate_i64(v) >= w,
        i64::MIN <= v <= i64::MAX ==> saturate_i64(v) == v,
{
}

/// An integer of at most 53 bits is its own nearest double.
pub proof fn lemma_nearest_integer(n: int)
    requires
        -0x20_0000_0000_0000 <= n <= 0x20_0000_0000_0000,
    ensures
        nearest_double(n as real) == n as real,
{
    let size = if n < 0 { -n } else { n };
    let s = size as real;
    lemma_times_one(s);
    if n != 0 {
        lemma_representable(size, 0);
    }
}

/// Rounds `(n + f) * 2^k` to 53 bits, `f` being a fraction of which only
/// `sticky`, whether it is more than nothing, is known.
fn round_scaled(n: u128, sticky: bool, k: i32, Ghost(f): Ghost<real>) -> (r: (u64, i32))
    requires
        n > 0,
        sticky ==> n >= 0x20_0000_0000_0000,
        0 as real <= f < 1 as real,
        sticky <==> f != 0 as real,
        -1000 <= k <= 1000,
    ensures
        0 < r.0 <= 0x20_0000_0000_0000,
        k <= r.1 <= k + 75,
        (r.0 as real) * two_to(r.1 as int) == nearest_positive(
            ((n as real) + f) * two_to(k as int),
        ),
{
    if n < 0x20_0000_0000_0000 {
        proof {
            lemma_representable(n as int, k as int);
        }
        return (n as u64, k);
    }
    let mut q: u128 = n;
    let mut r: u128 = 0;
    let mut p: u128 = 1;
    let mut s: i32 = 0;
    while q >= 0x20_0000_0000_0000
        invariant
            n >= 0x20_0000_0000_0000,
            n == q * p + r,
            r < p,
            p > 0,
            0 <= s <= 75,
            (p as int) as real == two_to(s as int),
            s > 0 ==> q >= 0x10_0000_0000_0000,
            s == 0 ==> q == n,
            p <= 0x10_0000_0000_0000_0000_00,
        decreases q,
    {
        let ghost (q0, r0, p0) = (q as int, r as int, p as int);
        let bit: u128 = q % 2;
        assert(q0 * p0 + r0 <= u128::MAX);
        assert(p0 <= 0x7_ffff_ffff_ffff_ffff_ff) by {
            lemma_mul_inequality(0x20_0000_0000_0000, q0, p0);
        }
        assert(s < 75) by {
            if s >= 75 {
                lemma_two_to_grows(75, s as int);
                assert(two_to(75) == 0x8_0000_0000_0000_0000_00int as real) by {
                    reveal_with_fuel(two_to, 80);
                }
            }
        }
        let add_back: u128 = if bit == 1 { p } else { 0 };
        r = r + add_back;
        q = q / 2;
        p = p * 2;
        s = s + 1;
        proof {
            lemma_two_to_step(s - 1);
            let b = bit as int;
            let q1 = q as int;
            assert(q0 == 2 * q1 + b);
            lemma_mul_is_distributive_add_other_way(p0, 2 * q1, b);
            lemma_mul_is_associative(q1, 2, p0);
            lemma_mul_is_commutative(q1, 2);
            assert(b * p0 == add_back) by {
                lemma_mul_basics(p0);
                assert(b == 0 || b == 1);
            }
            assert((2 * p0) as real == two_to(s as int));
        }
    }
    let up: bool = r > p - r || (r == p - r && (sticky || q % 2 == 1));
    proof {
        lemma_round_split(n as int, f, k as int, s as int, p as int, q as int, r as int);
    }
    if up {
        ((q + 1) as u64, k + s)
    } else {
        (q as u64, k + s)
    }
}

/// Shifts `magnitude` right by `t` bits. The bits that fall out are the
/// fraction `f`: `sticky` says whether there are any, `half` whether they
/// amount to a half or more.
fn shift_right(magnitude: u64, t: u32) -> (r: (u64, bool, bool, Ghost<real>))
    ensures
        0 as real <= r.3@ < 1 as real,
        (magnitude as real) == ((r.0 as real) + r.3@) * two_to(t as int),
        r.1 <==> r.3@ != 0 as real,
        r.2 <==> r.3@ >= (1 as real) / (2 as real),
        r.0 <= magnitude,
{
    let mut q: u64 = magnitude;
    let mut sticky: bool = false;
    let mut half: bool = false;
    let mut i: u32 = 0;
    let ghost mut f: real = 0 as real;
    proof {
        lemma_times_one((magnitude as real) + (0 as real));
    }
    while i < t
        invariant
            i <= t,
            0 as real <= f < 1 as real,
            (magnitude as real) == ((q as real) + f) * two_to(i as int),
            sticky <==> f != 0 as real,
            half <==> f >= (1 as real) / (2 as real),
            q <= magnitude,
        decreases t - i,
    {
        let bit: u64 = q % 2;
        let ghost q0 = q as real;
        let ghost f0 = f;
        sticky = sticky || bit == 1;
        half = bit == 1;
        q = q / 2;
        proof {
            let b = bit as real;
            let q1 = q as real;
            lemma_two_to_step(i as int);
            f = (b + f0) / (2 as real);
            assert(q0 == (2 as real) * q1 + b);
            let u = two_to(i as int);
            assert(q0 + f0 == (q1 + f) * (2 as real));
            lemma_times_associates(q1 + f, 2 as real, u);
            lemma_times_commutes(2 as real, u);
        }
        i = i + 1;
    }
    (q, sticky, half, Ghost(f))
}

/// A number `± magnitude * 2^exponent`.
#[derive(Clone, Copy, Debug)]
pub struct Dyadic {
    pub negative: bool,
    pub magnitude: u64,
    pub exponent: i32,
}

impl Dyadic {
    /// The absolute value.
    pub open spec fn size(self) -> real {
        (self.magnitude as real) * two_to(self.exponent as int)
    }

    /// The number itself.
    pub open spec fn value(self) -> real {
        if self.negative {
            -self.size()
        } else {
            self.size()
        }
    }

    /// At most 53 significant bits, and an exponent between `lo` and `hi`.
    pub open spec fn fits(self, lo: int, hi: int) -> bool {
        &&& self.magnitude <= 0x20_0000_0000_0000
        &&& lo <= self.exponent <= hi
    }

    /// `v` as a double.
    pub fn from_i64(v: i64) -> (r: Self)
        ensures
            r.value() == nearest_double(v as real),
            r.fits(0, 75),
            v != 0 ==> r.magnitude > 0,
    {
        let negative: bool = v < 0;
        let n: u128 = if v < 0 { (-(v as i128)) as u128 } else { v as u128 };
        if n == 0 {
            proof {
                lemma_times_zero(two_to(0));
            }
            return Dyadic { negative, magnitude: 0, exponent: 0 };
        }
        let (magnitude, exponent): (u64, i32) = round_scaled(n, false, 0, Ghost(0 as real));
        proof {
            lemma_times_one((n as real) + (0 as real));
        }
        Dyadic { negative, magnitude, exponent }
    }

    /// The same number, its magnitude widened to 53 bits.
    pub fn normalized(self) -> (r: Self)
        requires
            self.magnitude > 0,
            self.fits(-900, 900),
        ensures
            r.value() == self.value(),
            r.size() == self.size(),
            r.negative == self.negative,
            r.fits(self.exponent - 52, self.exponent as int),
            r.magnitude >= 0x10_0000_0000_0000,
            self.magnitude < 0x20_0000_0000_0000 ==> r.magnitude < 0x20_0000_0000_0000,
    {
        let mut m: u64 = self.magnitude;
        let mut e: i32 = self.exponent;
        let mut left: u32 = 52;
        proof {
            lemma_two_to_52();
            let mr = m as real;
            lemma_scale(1 as real, mr, two_to(52));
            lemma_times_one(two_to(52));
        }
        while m < 0x10_0000_0000_0000
            invariant
                self.fits(-900, 900),
                0 < m <= 0x20_0000_0000_0000,
                self.magnitude < 0x20_0000_0000_0000 ==> m < 0x20_0000_0000_0000,
                (m as real) * two_to(e as int) == self.size(),
                left <= 52,
                e == self.exponent - (52 - left),
                (m as real) * two_to(left as int) >= two_to(52),
            decreases left,
        {
            proof {
                let mr = m as real;
                lemma_two_to_step(e - 1);
                let h = two_to(e - 1);
                lemma_times_associates(mr, 2 as real, h);
                lemma_times_commutes(2 as real, h);
                lemma_two_to_52();
                lemma_two_to_step(left - 1);
                let d = two_to(left - 1);
                lemma_times_associates(mr, 2 as real, d);
                lemma_times_commutes(2 as real, d);
                assert(left > 0) by {
                    if left == 0 {
                        lemma_times_one(mr);
                    }
                }
            }
            m = m * 2;
            e = e - 1;
            left = left - 1;
        }
        Dyadic { negative: self.negative, magnitude: m, exponent: e }
    }

    /// The product, rounded.
    pub fn times(self, other: Self) -> (r: Self)
        requires
            self.fits(-400, 400),
            other.fits(-400, 400),
        ensures
            r.value() == nearest_double(self.value() * other.value()),
            r.fits(self.exponent + other.exponent, self.exponent + other.exponent + 75),
    {
        let negative: bool = self.negative != other.negative;
        let k: i32 = self.exponent + other.exponent;
        let ghost (a, b) = (self.magnitude as real, other.magnitude as real);
        let ghost (u, v) = (two_to(self.exponent as int), two_to(other.exponent as int));
        let ghost w = two_to(k as int);
        proof {
            lemma_two_to_sum(self.exponent as int, other.exponent as int);
            lemma_two_to_positive(k as int);
            lemma_times_exchange(a, u, b, v);
            lemma_times_negative(a * u, b * v);
            lemma_mul_upper_bound(
                self.magnitude as int,
                0x20_0000_0000_0000,
                other.magnitude as int,
                0x20_0000_0000_0000,
            );
        }
        let n: u128 = self.magnitude as u128 * other.magnitude as u128;
        let ghost nr = n as real;
        proof {
            lemma_whole_product(self.magnitude as int, other.magnitude as int);
        }
        if n == 0 {
            proof {
                lemma_times_zero(w);
            }
            return Dyadic { negative, magnitude: 0, exponent: k };
        }
        let (magnitude, exponent): (u64, i32) = round_scaled(n, false, k, Ghost(0 as real));
        proof {
            lemma_positive_product(nr, w);
        }
        Dyadic { negative, magnitude, exponent }
    }

    /// The quotient, rounded.
    pub fn over(self, other: Self) -> (r: Self)
        requires
            self.fits(-400, 400),
            other.fits(-400, 400),
            other.magnitude > 0,
        ensures
            r.value() == nearest_double(self.value() / other.value()),
            r.fits(
                self.exponent - other.exponent - 126,
                self.exponent - other.exponent + 1,
            ),
    {
        let negative: bool = self.negative != other.negative;
        let ghost v = two_to(other.exponent as int);
        let ghost b = other.magnitude as real;
        proof {
            lemma_two_to_positive(other.exponent as int);
            lemma_positive_product(b, v);
        }
        if self.magnitude == 0 {
            proof {
                let x = self.size();
                let y = other.size();
                lemma_times_zero(two_to(self.exponent as int));
                lemma_times_zero(y);
                lemma_times_zero(-y);
                lemma_quotient_is(0 as real, y, 0 as real);
                lemma_quotient_is(0 as real, -y, 0 as real);
                lemma_times_zero(two_to((self.exponent - other.exponent) as int));
            }
            return Dyadic { negative, magnitude: 0, exponent: self.exponent - other.exponent };
        }
        let top: Self = self.normalized();
        let wide: u128 = top.magnitude as u128 * 0x400_0000_0000_0000_0000;
        let n: u128 = wide / (other.magnitude as u128);
        let rest: u128 = wide % (other.magnitude as u128);
        let k: i32 = top.exponent - other.exponent - 74;
        let ghost f = (rest as real) / b;
        let ghost x = self.size();
        let ghost y = other.size();
        let ghost w = two_to(k as int);
        proof {
            let a = top.magnitude as real;
            let big = two_to(74);
            let nr = n as real;
            let rr = rest as real;
            assert(big == 0x400_0000_0000_0000_0000int as real) by {
                reveal_with_fuel(two_to, 80);
            }
            assert(wide as real == a * big);
            assert(wide == n * other.magnitude + rest) by {
                vstd::arithmetic::div_mod::lemma_fundamental_div_mod(
                    wide as int,
                    other.magnitude as int,
                );
                lemma_mul_is_commutative(n as int, other.magnitude as int);
            }
            lemma_whole_product(n as int, other.magnitude as int);
            assert(wide as real == nr * b + rr);
            assert(n >= 0x20_0000_0000_0000) by {
                let m = other.magnitude as int;
                if n < 0x20_0000_0000_0000 {
                    lemma_mul_inequality(n + 1, 0x20_0000_0000_0000, m);
                    lemma_mul_is_distributive_add_other_way(m, n as int, 1);
                }
            }
            lemma_quotient(rr, b);
            lemma_times_zero(b);
            lemma_times_one(b);
            lemma_quotient_bounds(rr, b, 0 as real, 1 as real);
            assert((f != 0 as real) == (rest != 0)) by {
                if rest == 0 {
                    lemma_quotient_is(rr, b, 0 as real);
                }
            }
            lemma_two_to_sum(k as int, 74);
            lemma_two_to_sum(k + 74, other.exponent as int);
            let u = two_to(top.exponent as int);
            assert(u == w * big * v);
            lemma_two_to_positive(k as int);
            let z = (nr + f) * w;
            assert(x == z * y) by {
                lemma_times_distributes(nr, f, b);
                lemma_times_exchange(nr + f, w, b, v);
                assert(z * y == (a * big) * (w * v));
                lemma_times_exchange(a, big, w, v);
                lemma_times_associates(a, w, big * v);
                lemma_times_associates(w, big, v);
            }
            lemma_positive_product(nr + f, w);
            lemma_times_negative(z, y);
            lemma_quotient_is(x, y, z);
            lemma_quotient_is(-x, y, -z);
            lemma_quotient_is(x, -y, -z);
            lemma_quotient_is(-x, -y, z);
        }
        let (magnitude, exponent): (u64, i32) = round_scaled(n, rest != 0, k, Ghost(f));
        Dyadic { negative, magnitude, exponent }
    }

    /// The sum of two non-zero numbers, the one with the greater exponent
    /// first, rounded.
    fn plus_ordered(hi: Self, lo: Self) -> (r: Self)
        requires
            hi.fits(-400, 400),
            lo.fits(-400, 400),
            hi.magnitude > 0,
            lo.magnitude > 0,
            hi.exponent >= lo.exponent,
            hi.exponent - lo.exponent > 70 ==> hi.magnitude >= 0x10_0000_0000_0000,
        ensures
            r.value() == nearest_double(hi.value() + lo.value()),
            r.fits(lo.exponent as int, hi.exponent + 75),
    {
        let d: i32 = hi.exponent - lo.exponent;
        let base: i32 = if d > 70 { 70 } else { d };
        let scale: u128 = power_of_two(base as u32);
        let k: i32 = hi.exponent - base;
        let ghost w = two_to(k as int);
        let ghost a = hi.magnitude as real;
        let ghost sc = scale as real;
        proof {
            lemma_mul_upper_bound(
                hi.magnitude as int,
                0x20_0000_0000_0000,
                scale as int,
                0x40_0000_0000_0000_0000,
            );
        }
        let high: u128 = hi.magnitude as u128 * scale;
        let (low, sticky, _half, fraction): (u64, bool, bool, Ghost<real>) = shift_right(
            lo.magnitude,
            (d - base) as u32,
        );
        let low: u128 = low as u128;
        let ghost f = fraction@;
        let ghost hr = high as real;
        let ghost lr = low as real;
        proof {
            lemma_two_to_sum(k as int, base as int);
            lemma_two_to_sum(lo.exponent as int, d - base);
            lemma_two_to_positive(k as int);
            lemma_whole_product(hi.magnitude as int, scale as int);
            assert(hr == a * sc);
            assert(hi.size() == hr * w) by {
                lemma_times_associates(a, sc, w);
                lemma_times_commutes(sc, w);
            }
            let b = lo.magnitude as real;
            let v = two_to(lo.exponent as int);
            let t = two_to(d - base);
            assert(lo.size() == (lr + f) * w) by {
                lemma_times_associates(lr + f, t, v);
                lemma_times_commutes(t, v);
            }
            if d <= 70 {
                assert(f == 0 as real) by {
                    lemma_times_one(lr + f);
                    if f != 0 as real {
                        assert(lr < b && b < lr + 1 as real);
                        assert(low < lo.magnitude < low + 1);
                    }
                }
            } else {
                lemma_mul_inequality(0x10_0000_0000_0000, hi.magnitude as int, scale as int);
            }
            lemma_times_distributes(hr, lr + f, w);
            lemma_times_distributes(lr + f, hr, w);
            assert(hr + (lr + f) == hr + lr + f);
            assert(hr - (lr + f) == hr - lr - f);
            assert((lr + f) - hr == lr - hr + f);
        }
        if hi.negative == lo.negative {
            let n: u128 = high + low;
            proof {
                lemma_mul_inequality(1, hi.magnitude as int, scale as int);
                lemma_positive_product((n as real) + f, w);
            }
            let (magnitude, exponent): (u64, i32) = round_scaled(n, sticky, k, Ghost(f));
            Dyadic { negative: hi.negative, magnitude, exponent }
        } else if high > low {
            let n: u128 = if sticky { high - low - 1 } else { high - low };
            let ghost g = if sticky { (1 as real) - f } else { 0 as real };
            proof {
                assert((n as real) + g == hr - lr - f);
                lemma_positive_product((n as real) + g, w);
            }
            let (magnitude, exponent): (u64, i32) = round_scaled(n, sticky, k, Ghost(g));
            Dyadic { negative: hi.negative, magnitude, exponent }
        } else if high == low {
            proof {
                assert(hr - lr - f == 0 as real);
                lemma_times_zero(w);
            }
            Dyadic { negative: false, magnitude: 0, exponent: k }
        } else {
            let n: u128 = low - high;
            proof {
                assert((n as real) + (0 as real) == lr - hr + f);
                lemma_positive_product((n as real) + (0 as real), w);
            }
            let (magnitude, exponent): (u64, i32) = round_scaled(n, false, k, Ghost(0 as real));
            Dyadic { negative: lo.negative, magnitude, exponent }
        }
    }

    /// The sum, rounded.
    pub fn plus(self, other: Self) -> (r: Self)
        requires
            self.fits(-300, 300),
            other.fits(-300, 300),
        ensures
            r.value() == nearest_double(self.value() + other.value()),
            r.fits(-300, 375),
    {
        if self.magnitude == 0 {
            proof {
                other.lemma_exact();
                self.lemma_zero();
            }
            other
        } else if other.magnitude == 0 {
            proof {
                self.lemma_exact();
                other.lemma_zero();
            }
            self
        } else {
            assert(self.value() + other.value() == other.value() + self.value());
            let (mut hi, lo): (Self, Self) = if self.exponent >= other.exponent {
                (self, other)
            } else {
                (other, self)
            };
            if hi.exponent - lo.exponent > 70 {
                hi = hi.normalized();
            }
            Self::plus_ordered(hi, lo)
        }
    }

    /// The size in whole units, as far as an `i64` can tell it apart, with
    /// whether the part cut off is a half or more.
    fn whole_part(self) -> (r: (u128, bool))
        requires
            self.fits(-2000, 2000),
        ensures
            r.0 > 0x8000_0000_0000_0000 ==> self.size() >= 0x8000_0000_0000_0001int as real,
            r.0 <= 0x8000_0000_0000_0000 ==> {
                &&& self.size().floor() == r.0
                &&& (self.size() + (1 as real) / (2 as real)).floor() == r.0 + (if r.1 {
                    1int
                } else {
                    0int
                })
            },
            self.size() >= 0 as real,
    {
        proof {
            lemma_two_to_positive(self.exponent as int);
            let m = self.magnitude as real;
            let u = two_to(self.exponent as int);
            lemma_scale(0 as real, m, u);
            lemma_times_zero(u);
        }
        if self.exponent >= 0 {
            let mut m: u128 = self.magnitude as u128;
            let mut e: i32 = self.exponent;
            while e > 0 && m <= 0x8000_0000_0000_0000
                invariant
                    self.fits(-2000, 2000),
                    0 <= e <= self.exponent,
                    m <= 0x1_0000_0000_0000_0000,
                    (m as real) * two_to(e as int) == self.size(),
                decreases e,
            {
                proof {
                    lemma_two_to_step(e - 1);
                    let mr = m as real;
                    let h = two_to(e - 1);
                    lemma_times_associates(mr, 2 as real, h);
                    lemma_times_commutes(2 as real, h);
                }
                m = m * 2;
                e = e - 1;
            }
            proof {
                let mr = m as real;
                if e == 0 {
                    lemma_times_one(mr);
                } else {
                    lemma_two_to_grows(0, e as int);
                    let u = two_to(e as int);
                    lemma_scale(1 as real, u, mr);
                    lemma_times_one(mr);
                    lemma_times_commutes(u, mr);
                }
            }
            (m, false)
        } else {
            let t: u32 = (-self.exponent) as u32;
            let (q, _sticky, half, fraction): (u64, bool, bool, Ghost<real>) = shift_right(
                self.magnitude,
                t,
            );
            proof {
                let f = fraction@;
                let m = self.magnitude as real;
                let qr = q as real;
                let u = two_to(self.exponent as int);
                let v = two_to(t as int);
                lemma_two_to_sum(self.exponent as int, t as int);
                lemma_times_associates(qr + f, v, u);
                lemma_times_commutes(v, u);
                lemma_times_one(qr + f);
            }
            (q as u128, half)
        }
    }

    /// The number as an `i64`, cut off toward zero.
    pub fn truncate(self) -> (r: i64)
        requires
            self.fits(-2000, 2000),
        ensures
            r == saturate_i64(toward_zero(self.value())),
    {
        let (whole, _half): (u128, bool) = self.whole_part();
        if self.negative {
            if whole >= 0x8000_0000_0000_0000 {
                i64::MIN
            } else {
                -(whole as i64)
            }
        } else if whole > 0x7fff_ffff_ffff_ffff {
            i64::MAX
        } else {
            whole as i64
        }
    }

    /// The number as an `i64`, rounded to the nearest, halves away from zero.
    pub fn round(self) -> (r: i64)
        requires
            self.fits(-2000, 2000),
        ensures
            r == saturate_i64(half_away(self.value())),
    {
        let (whole, half): (u128, bool) = self.whole_part();
        let whole: u128 = if half && whole <= 0x8000_0000_0000_0000 { whole + 1 } else { whole };
        if self.negative {
            if whole >= 0x8000_0000_0000_0000 {
                i64::MIN
            } else {
                -(whole as i64)
            }
        } else if whole > 0x7fff_ffff_ffff_ffff {
            i64::MAX
        } else {
            whole as i64
        }
    }

    /// A number of at most 53 bits is its own nearest double.
    proof fn lemma_exact(self)
        requires
            self.magnitude <= 0x20_0000_0000_0000,
        ensures
            nearest_double(self.value()) == self.value(),
    {
        if self.magnitude == 0 {
            self.lemma_zero();
        } else {
            lemma_representable(self.magnitude as int, self.exponent as int);
            lemma_two_to_positive(self.exponent as int);
            lemma_positive_product(self.magnitude as real, two_to(self.exponent as int));
        }
    }

    /// Without a magnitude a number is zero.
    proof fn lemma_zero(self)
        requires
            self.magnitude == 0,
        ensures
            self.value() == 0 as real,
    {
        lemma_times_zero(two_to(self.exponent as int));
    }
}

/// `2^d`, as far as the sum of two doubles asks for it.
fn power_of_two(d: u32) -> (p: u128)
    requires
        d <= 70,
    ensures
        (p as int) as real == two_to(d as int),
        0 < p <= 0x40_0000_0000_0000_0000,
        d == 70 ==> p == 0x40_0000_0000_0000_0000,
{
    let mut p: u128 = 1;
    let mut i: u32 = 0;
    proof {
        assert(two_to(70) == 0x40_0000_0000_0000_0000int as real) by {
            reveal_with_fuel(two_to, 75);
        }
    }
    while i < d
        invariant
            i <= d <= 70,
            (p as int) as real == two_to(i as int),
            p > 0,
            two_to(70) == 0x40_0000_0000_0000_0000int as real,
        decreases d - i,
    {
        proof {
            lemma_two_to_step(i as int);
            lemma_two_to_grows(i as int, 70);
            assert((2 * (p as int)) as real == two_to(i + 1));
        }
        p = p * 2;
        i = i + 1;
    }
    proof {
        lemma_two_to_grows(d as int, 70);
    }
    p
}

} // verus!
