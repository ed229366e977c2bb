//! Single-precision numbers, held as doubles.
//!
//! Messages carry single-precision numbers. Here such a number is the double
//! of the same value, and [`Binary64::narrow`] finds the one nearest to any
//! double.

use crate::binary64::{
    lemma_made, lemma_size_nonnegative, lemma_size_order, Binary64, EXPONENT_UNIT, INFINITY, SIGN,
};
use crate::reals::{
    lemma_scale, lemma_scale_strictly, lemma_times_associates, lemma_times_commutes,
    lemma_times_distributes, lemma_times_negative, lemma_times_zero, lemma_whole_product,
};
use crate::rounding::{
    lemma_two_to_grows, lemma_two_to_positive, lemma_two_to_step, lemma_two_to_sum, two_to, Dyadic,
};
use vstd::arithmetic::div_mod::{
    lemma_basic_div, lemma_fundamental_div_mod, lemma_mod_multiples_basic, lemma_small_mod,
};
use vstd::arithmetic::mul::{
    lemma_mul_inequality, lemma_mul_is_associative, lemma_mul_is_commutative,
};
use vstd::arithmetic::power2::{
    lemma2_to64, lemma2_to64_rest, lemma_pow2_adds, lemma_pow2_pos, lemma_pow2_strictly_increases,
    lemma_pow2_unfold, pow2,
};
use vstd::prelude::*;

verus! {

/// The integer nearest to `m / d`; of two equally near ones, the even one.
pub open spec fn nearest_quotient(m: int, d: int) -> int {
    let below = m / d;
    let rest = m % d;
    if 2 * rest < d {
        below
    } else if 2 * rest > d {
        below + 1
    } else if below % 2 == 0 {
        below
    } else {
        below + 1
    }
}

/// How many bits at the end of a significand with the unit `2^u` single
/// precision has no room for: all but 24 of 53, and all below `2^-149`.
pub open spec fn excess_of(u: int) -> nat {
    if u >= -178 {
        29
    } else {
        (-149 - u) as nat
    }
}

/// How many bits at the end of the significand single precision has no room
/// for.
pub open spec fn excess(x: Binary64) -> nat {
    excess_of(x.unit())
}

/// The significand of the single nearest to a finite number.
pub open spec fn single_significand(x: Binary64) -> int {
    nearest_quotient(x.significand(), pow2(excess(x)) as int)
}

/// The absolute value of the single nearest to a finite number, if there were
/// no largest single.
pub open spec fn single_size(x: Binary64) -> real {
    (single_significand(x) as real) * two_to(x.unit() + excess(x))
}

/// Whether `y` is the single nearest to `x`, ties to the even significand. It
/// is infinite from `2^128` on, and keeps the sign. What is no number stays
/// so.
pub open spec fn is_single_of(y: Binary64, x: Binary64) -> bool {
    if !x.is_finite() {
        y == x
    } else {
        &&& y.is_negative() == x.is_negative()
        &&& if single_size(x) >= two_to(128) {
            y.unsigned() == INFINITY
        } else {
            y.is_finite() && y.size() == single_size(x)
        }
    }
}

/// The single nearest to `x`.
pub open spec fn narrowed(x: Binary64) -> Binary64 {
    choose|y: Binary64| is_single_of(y, x)
}

/// There is only one single nearest to a number.
proof fn lemma_single_unique(a: Binary64, b: Binary64, x: Binary64)
    requires
        is_single_of(a, x),
        is_single_of(b, x),
    ensures
        a == b,
{
    if x.is_finite() {
        if a.unsigned() < b.unsigned() {
            lemma_size_order(a, b);
        } else if b.unsigned() < a.unsigned() {
            lemma_size_order(b, a);
        }
        assert(a.unsigned() == b.unsigned());
    }
}

/// The significand of a single has at most 24 bits, all of them where the
/// number is not below the least normal one.
proof fn lemma_significand_bounds(x: Binary64)
    requires
        x.is_finite(),
    ensures
        0 <= single_significand(x) <= 0x100_0000,
        x.unit() >= 0 ==> single_significand(x) >= 0x80_0000,
        excess(x) >= 55 ==> single_significand(x) == 0,
        pow2(excess(x)) > 0,
{
    let m = x.significand();
    let d = pow2(excess(x)) as int;
    lemma2_to64();
    lemma2_to64_rest();
    lemma_pow2_pos(excess(x));
    if excess(x) > 29 {
        lemma_pow2_strictly_increases(29, excess(x));
    }
    lemma_fundamental_div_mod(m, d);
    let below = m / d;
    assert(0 <= m < 0x20_0000_0000_0000);
    assert(0 <= below) by {
        if below < 0 {
            lemma_mul_inequality(below, -1, d);
            lemma_mul_is_commutative(d, below);
        }
    }
    if below >= 0x100_0000 {
        lemma_mul_inequality(0x100_0000, below, d);
        lemma_mul_is_commutative(d, below);
        lemma_mul_inequality(0x2000_0000, d, 0x100_0000);
        lemma_mul_is_commutative(d, 0x100_0000);
    }
    if x.unit() >= 0 && below < 0x80_0000 {
        assert(d == 0x2000_0000);
        assert(m >= EXPONENT_UNIT);
        lemma_mul_inequality(below, 0x7f_ffff, d);
        lemma_mul_is_commutative(d, below);
        assert(m % d < d);
    }
    if excess(x) >= 55 {
        if excess(x) > 55 {
            lemma_pow2_strictly_increases(55, excess(x));
        }
        lemma_basic_div(m, d);
        lemma_small_mod(m as nat, d as nat);
    }
}

/// When the nearest single is infinite.
proof fn lemma_overflow(q: int, e: int)
    requires
        0 <= q <= 0x100_0000,
        e >= 104 ==> q >= 0x80_0000,
    ensures
        (q as real) * two_to(e) >= two_to(128) <==> e > 104 || (e == 104 && q == 0x100_0000),
{
    let r = q as real;
    assert(two_to(23) == 0x80_0000int as real && two_to(24) == 0x100_0000int as real) by {
        reveal_with_fuel(two_to, 30);
    }
    lemma_two_to_positive(e);
    if e > 104 {
        lemma_two_to_sum(23, e);
        lemma_two_to_grows(128, 23 + e);
        lemma_scale(two_to(23), r, two_to(e));
    } else if e == 104 {
        lemma_two_to_sum(24, 104);
        if q < 0x100_0000 {
            lemma_scale_strictly(r, two_to(24), two_to(e));
        }
    } else {
        lemma_two_to_sum(24, e);
        lemma_two_to_grows(24 + e, 127);
        lemma_two_to_step(127);
        lemma_two_to_positive(127);
        lemma_scale(r, two_to(24), two_to(e));
    }
}

/// Every number has a nearest single.
proof fn lemma_single_exists(x: Binary64)
    ensures
        is_single_of(narrowed(x), x),
{
    if !x.is_finite() {
        assert(is_single_of(x, x));
    } else {
        let q = single_significand(x);
        let e = x.unit() + excess(x);
        lemma_significand_bounds(x);
        lemma_overflow(q, e);
        if single_size(x) >= two_to(128) {
            let y = Binary64 {
                bits: if x.is_negative() {
                    (SIGN + INFINITY) as u64
                } else {
                    INFINITY
                },
            };
            assert(is_single_of(y, x));
        } else if q == 0 {
            let y = Binary64 {
                bits: if x.is_negative() {
                    SIGN
                } else {
                    0
                },
            };
            lemma_times_zero(two_to(e));
            lemma_times_zero(two_to(-1074));
            assert(is_single_of(y, x));
        } else {
            let y = lemma_made(x.is_negative(), q, e);
            assert(is_single_of(y, x));
        }
    }
}

impl Binary64 {
    /// The single nearest to this number.
    pub fn narrow(self) -> (r: Self)
        ensures
            r == narrowed(self),
            is_single_of(r, self),
    {
        let r: Binary64 = self.find_single();
        proof {
            lemma_single_unique(r, narrowed(self), self);
        }
        r
    }

    /// The single nearest to this number.
    fn find_single(self) -> (r: Self)
        ensures
            is_single_of(r, self),
    {
        let negative: bool = self.bits >= SIGN;
        let unsigned: u64 = if negative { self.bits - SIGN } else { self.bits };
        if unsigned >= INFINITY {
            return self;
        }
        let sign: u64 = if negative { SIGN } else { 0 };
        let exponent: u64 = unsigned / EXPONENT_UNIT;
        let fraction: u64 = unsigned % EXPONENT_UNIT;
        let m: u64 = if exponent == 0 { fraction } else { EXPONENT_UNIT + fraction };
        let unit: i32 = if exponent == 0 { -1074 } else { exponent as i32 - 1075 };
        let s: i32 = if unit >= -178 { 29 } else { -149 - unit };
        proof {
            lemma_significand_bounds(self);
            lemma_overflow(single_significand(self), unit + s);
            lemma_times_zero(two_to(unit + s));
            lemma_times_zero(two_to(-1074));
            lemma_two_to_positive(128);
        }
        if s >= 55 {
            return Binary64 { bits: sign };
        }
        let d: u64 = small_power(s as u32);
        let below: u64 = m / d;
        let rest: u64 = m % d;
        proof {
            lemma2_to64();
            lemma2_to64_rest();
        }
        let up: bool = 2 * rest > d || (2 * rest == d && below % 2 == 1);
        assert(below <= 0x100_0000);
        let q: u64 = if up { below + 1 } else { below };
        assert(q == single_significand(self));
        let e: i32 = unit + s;
        if e > 104 || (e == 104 && q == 0x100_0000) {
            return Binary64 { bits: sign + INFINITY };
        }
        if q == 0 {
            return Binary64 { bits: sign };
        }
        let number: Dyadic = Dyadic { negative: false, magnitude: q, exponent: e };
        let number: Dyadic = number.normalized();
        let field: u64 = (number.exponent + 1075) as u64;
        let unsigned: u64 = field * EXPONENT_UNIT + (number.magnitude - EXPONENT_UNIT);
        Binary64 { bits: sign + unsigned }
    }
}

/// `2^s` for a small `s`.
fn small_power(s: u32) -> (p: u64)
    requires
        s < 55,
    ensures
        p == pow2(s as nat),
        0 < p <= 0x40_0000_0000_0000,
{
    let mut p: u64 = 1;
    let mut i: u32 = 0;
    proof {
        lemma2_to64();
        lemma2_to64_rest();
    }
    while i < s
        invariant
            i <= s < 55,
            p == pow2(i as nat),
            pow2(54) == 0x40_0000_0000_0000,
        decreases s - i,
    {
        proof {
            lemma_pow2_unfold((i + 1) as nat);
            if i + 1 < 54 {
                lemma_pow2_strictly_increases((i + 1) as nat, 54);
            }
        }
        p = p * 2;
        i = i + 1;
    }
    proof {
        if s < 54 {
            lemma_pow2_strictly_increases(s as nat, 54);
        }
        lemma_pow2_pos(s as nat);
    }
    p
}

/// A power of two is the same number as an integer and as a real.
proof fn lemma_same_power(k: nat)
    ensures
        (pow2(k) as int) as real == two_to(k as int),
    decreases k,
{
    lemma2_to64();
    if k > 0 {
        lemma_same_power((k - 1) as nat);
        lemma_pow2_unfold(k);
        lemma_two_to_step(k - 1);
        let h = pow2((k - 1) as nat) as int;
        assert((2 * h) as real == (h as real) * (2 as real));
    }
}

/// A number whose excess bits are all clear is a single.
proof fn lemma_clear_is_single(y: Binary64)
    requires
        y.is_finite(),
        y.size() < two_to(128),
        y.significand() % (pow2(excess(y)) as int) == 0,
    ensures
        is_single_of(y, y),
{
    let m = y.significand();
    let t = excess(y);
    let d = pow2(t) as int;
    let q = m / d;
    lemma_pow2_pos(t);
    lemma_fundamental_div_mod(m, d);
    assert(q == single_significand(y));
    lemma_mul_is_commutative(d, q);
    lemma_whole_product(q, d);
    lemma_same_power(t);
    lemma_two_to_sum(t as int, y.unit());
    let (a, b, c) = (q as real, two_to(t as int), two_to(y.unit()));
    lemma_times_associates(a, b, c);
    assert(single_size(y) == y.size());
}

/// The significand of a double that is a small one times a power of two.
proof fn lemma_widened(m: int, u: int, q: int, e: int)
    requires
        EXPONENT_UNIT <= m < 2 * EXPONENT_UNIT,
        0 < q <= 0x100_0000,
        (m as real) * two_to(u) == (q as real) * two_to(e),
    ensures
        e >= u + 28,
        m == q * pow2((e - u) as nat),
        q < 0x100_0000 ==> e >= u + 29,
{
    let (a, b) = (m as real, q as real);
    lemma_two_to_positive(u);
    lemma_two_to_positive(e);
    if e < u {
        lemma_two_to_grows(e, u);
        lemma_scale(two_to(e), two_to(u), a);
        lemma_times_commutes(a, two_to(e));
        lemma_times_commutes(a, two_to(u));
        lemma_scale_strictly(b, a, two_to(e));
        assert(false);
    }
    let k = (e - u) as nat;
    let p = pow2(k) as int;
    lemma_same_power(k);
    lemma_two_to_sum(k as int, u);
    lemma_whole_product(q, p);
    let c = (q * p) as real;
    lemma_times_associates(b, p as real, two_to(u));
    assert(a * two_to(u) == c * two_to(u));
    if a < c {
        lemma_scale_strictly(a, c, two_to(u));
    } else if c < a {
        lemma_scale_strictly(c, a, two_to(u));
    }
    assert(m == q * p);
    lemma2_to64();
    lemma2_to64_rest();
    if k < 28 {
        lemma_pow2_strictly_increases(k, 28);
    }
    lemma_pow2_pos(k);
    lemma_mul_inequality(q, 0x100_0000, p);
    if k == 28 {
        assert(q * p == 0x1000_0000 * q) by (nonlinear_arith)
            requires
                p == 0x1000_0000,
        ;
    }
}

/// The excess bits of a double that is a small significand times a power of
/// two, not below `2^-149`, are all clear.
proof fn lemma_excess_clear(m: int, u: int, q: int, e: int)
    requires
        EXPONENT_UNIT <= m < 2 * EXPONENT_UNIT,
        0 < q <= 0x100_0000,
        e >= -149,
        (m as real) * two_to(u) == (q as real) * two_to(e),
    ensures
        m % (pow2(excess_of(u)) as int) == 0,
{
    let t = excess_of(u);
    let k = (e - u) as nat;
    lemma_widened(m, u, q, e);
    lemma_pow2_pos(t);
    if t <= k {
        let p = pow2((k - t) as nat) as int;
        let d = pow2(t) as int;
        lemma_pow2_adds((k - t) as nat, t);
        lemma_mul_is_associative(q, p, d);
        assert(m == (q * p) * d);
        lemma_mod_multiples_basic(q * p, d);
    } else {
        lemma2_to64();
        assert(t == 29 && k == 28);
        assert(q == 0x100_0000);
        assert(m == 0x100_0000 * 0x1000_0000);
    }
}

/// A single is the single nearest to itself, so narrowing a second time changes
/// nothing.
pub proof fn law_narrowing_settles(x: Binary64)
    ensures
        narrowed(narrowed(x)) == narrowed(x),
{
    let y = narrowed(x);
    lemma_single_exists(x);
    if y.is_finite() {
        let q = single_significand(x);
        let e = x.unit() + excess(x);
        lemma_significand_bounds(x);
        lemma_overflow(q, e);
        lemma_size_nonnegative(y);
        lemma_pow2_pos(excess(y));
        if q == 0 {
            lemma_times_zero(two_to(e));
            assert(y.unsigned() == 0);
            lemma_small_mod(0, pow2(excess(y)));
            assert(y.significand() % (pow2(excess(y)) as int) == 0);
        } else {
            let z = lemma_made(y.is_negative(), q, e);
            if y.unsigned() < z.unsigned() {
                lemma_size_order(y, z);
            } else if z.unsigned() < y.unsigned() {
                lemma_size_order(z, y);
            }
            assert(y.significand() == z.significand());
            lemma_excess_clear(y.significand(), y.unit(), q, e);
        }
        lemma_clear_is_single(y);
        lemma_single_unique(y, narrowed(y), y);
    } else {
        assert(is_single_of(y, y));
        lemma_single_unique(y, narrowed(y), y);
    }
}

/// The nearest quotient misses by no more than half, and by half only if it is
/// even.
proof fn lemma_nearest_quotient(m: int, d: int)
    requires
        d > 0,
    ensures
        -d <= 2 * (m - nearest_quotient(m, d) * d) <= d,
        -d == 2 * (m - nearest_quotient(m, d) * d) ==> nearest_quotient(m, d) % 2 == 0,
        2 * (m - nearest_quotient(m, d) * d) == d ==> nearest_quotient(m, d) % 2 == 0,
{
    lemma_fundamental_div_mod(m, d);
    vstd::arithmetic::div_mod::lemma_mod_bound(m, d);
    lemma_mul_is_commutative(m / d, d);
    vstd::arithmetic::mul::lemma_mul_is_distributive_add_other_way(d, m / d, 1);
}

/// A number that is not too large is narrowed to a whole multiple of a power
/// of two: `2^-149`, or `2^29` times the unit of the number where that is
/// more. It is missed by no more than half of this power, and by half only if
/// the multiple is even. The sign stays. Where the multiple is `2^128` or more
/// the number is narrowed to infinity; what is no number, or infinite, stays as
/// it is.
pub proof fn law_narrowing_goes_to_the_nearest(x: Binary64) -> (q: int)
    ensures
        !x.is_finite() ==> narrowed(x) == x,
        x.is_finite() ==> {
            let y = narrowed(x);
            let e: int = if x.unit() + 29 >= -149 {
                x.unit() + 29
            } else {
                -149
            };
            let half = two_to(e - 1);
            let multiple = (q as real) * two_to(e);
            &&& y.is_negative() == x.is_negative()
            &&& -half <= multiple - x.size() && multiple - x.size() <= half
            &&& (multiple - x.size() == half || x.size() - multiple == half) ==> q % 2 == 0
            &&& y.is_finite() <==> multiple < two_to(128)
            &&& y.is_finite() ==> y.size() == multiple
            &&& !y.is_nan()
        },
{
    let q = single_significand(x);
    lemma_single_exists(x);
    assert(is_single_of(narrowed(x), x));
    if x.is_finite() {
        let k = excess(x);
        let (m, u) = (x.significand(), x.unit());
        let d = pow2(k) as int;
        lemma_pow2_pos(k);
        lemma_nearest_quotient(m, d);
        lemma_same_power(k);
        let (small, large) = (two_to(u), two_to(u + k));
        lemma_two_to_sum(u, k as int);
        lemma_two_to_positive(u);
        lemma_two_to_step(u + k - 1);
        let miss = m - q * d;
        lemma_times_commutes(small, d as real);
        assert((q as real) * large == ((q * d) as real) * small) by {
            lemma_times_associates(q as real, d as real, small);
            lemma_whole_product(d, q);
            lemma_times_commutes(d as real, q as real);
            assert(q * d == d * q) by {
                lemma_mul_is_commutative(q, d);
            }
        }
        lemma_times_distributes(m as real, (q * d) as real, small);
        lemma_times_distributes((2 * miss) as real, d as real, small);
        lemma_times_distributes(miss as real, miss as real, small);
        assert((miss as real) * small == x.size() - (q as real) * large);
        lemma_scale((2 * miss) as real, d as real, small);
        lemma_scale((-d) as real, (2 * miss) as real, small);
        lemma_times_negative(d as real, small);
        if 2 * miss < d {
            lemma_scale_strictly((2 * miss) as real, d as real, small);
        }
        if -d < 2 * miss {
            lemma_scale_strictly((-d) as real, (2 * miss) as real, small);
        }
        lemma_size_nonnegative(x);
    }
    q
}

} // verus!
