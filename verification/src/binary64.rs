//! Double-precision numbers as they are stored.
//!
//! Scores, penalties and confidences come from and go to code that computes
//! with doubles. Here such a number is its 64-bit pattern, and the few things
//! that the library does with one are stated over what the pattern denotes.

use crate::reals::{
    lemma_positive_product, lemma_scale, lemma_scale_strictly, lemma_times_associates,
    lemma_times_commutes, lemma_times_one, lemma_times_zero,
};
use crate::rounding::{
    lemma_two_to_grows, lemma_two_to_positive, lemma_two_to_step, toward_zero, two_to, Dyadic,
};
use vstd::prelude::*;

verus! {

/// The number of patterns with a clear sign bit.
pub const SIGN: u64 = 0x8000_0000_0000_0000;

/// The pattern of positive infinity.
pub const INFINITY: u64 = 0x7ff0_0000_0000_0000;

/// One unit of the exponent field.
pub const EXPONENT_UNIT: u64 = 0x10_0000_0000_0000;

/// A double-precision number, by its bit pattern.
#[derive(Clone, Copy, Debug, PartialEq, Eq, Structural)]
pub struct Binary64 {
    pub bits: u64,
}

impl Binary64 {
    /// Whether the sign bit is set.
    pub open spec fn is_negative(self) -> bool {
        self.bits >= SIGN
    }

    /// The pattern without its sign bit.
    pub open spec fn unsigned(self) -> int {
        if self.bits >= SIGN {
            self.bits - SIGN
        } else {
            self.bits as int
        }
    }

    /// Whether the pattern stands for no number.
    pub open spec fn is_nan(self) -> bool {
        self.unsigned() > INFINITY
    }

    /// Whether the pattern stands for a real number.
    pub open spec fn is_finite(self) -> bool {
        self.unsigned() < INFINITY
    }

    /// The significand of a finite number, as an integer.
    pub open spec fn significand(self) -> int {
        let exponent = self.unsigned() / (EXPONENT_UNIT as int);
        let fraction = self.unsigned() % (EXPONENT_UNIT as int);
        if exponent == 0 {
            fraction
        } else {
            EXPONENT_UNIT + fraction
        }
    }

    /// The exponent of the significand's unit.
    pub open spec fn unit(self) -> int {
        let exponent = self.unsigned() / (EXPONENT_UNIT as int);
        if exponent == 0 {
            -1074
        } else {
            exponent - 1075
        }
    }

    /// The absolute value of a finite number.
    pub open spec fn size(self) -> real {
        (self.significand() as real) * two_to(self.unit())
    }

    /// The real number that a finite pattern stands for.
    pub open spec fn value(self) -> real {
        if self.is_negative() {
            -self.size()
        } else {
            self.size()
        }
    }

    /// Where the pattern stands in the order of the numbers: both zeros at
    /// the same place, the infinities at the ends.
    pub open spec fn rank(self) -> int {
        if self.is_negative() {
            -self.unsigned()
        } else {
            self.unsigned()
        }
    }

    /// Whether this number is less than `other`. A pattern that is no number
    /// is neither less nor greater than any.
    pub open spec fn lt(self, other: Self) -> bool {
        &&& !self.is_nan()
        &&& !other.is_nan()
        &&& self.rank() < other.rank()
    }

    /// The number cut off toward zero, as the nearest `i32` to it; zero for a
    /// pattern that is no number.
    pub open spec fn as_i32(self) -> int {
        if self.is_nan() {
            0
        } else if !self.is_finite() {
            if self.is_negative() {
                i32::MIN as int
            } else {
                i32::MAX as int
            }
        } else {
            let whole = toward_zero(self.value());
            if whole < i32::MIN {
                i32::MIN as int
            } else if whole > i32::MAX {
                i32::MAX as int
            } else {
                whole
            }
        }
    }

    /// The number with the given pattern.
    pub fn from_bits(bits: u64) -> (r: Self)
        ensures
            r.bits == bits,
    {
        Binary64 { bits }
    }

    /// The pattern.
    pub fn to_bits(self) -> (r: u64)
        ensures
            r == self.bits,
    {
        self.bits
    }

    /// Whether this number is less than `other`.
    pub fn less_than(self, other: Self) -> (r: bool)
        ensures
            r == self.lt(other),
    {
        let a_negative: bool = self.bits >= SIGN;
        let b_negative: bool = other.bits >= SIGN;
        let a: u64 = if a_negative { self.bits - SIGN } else { self.bits };
        let b: u64 = if b_negative { other.bits - SIGN } else { other.bits };
        if a > INFINITY || b > INFINITY {
            false
        } else if a_negative && b_negative {
            a > b
        } else if a_negative {
            a > 0 || b > 0
        } else if b_negative {
            false
        } else {
            a < b
        }
    }

    /// `v` as a double, which every `i32` is.
    pub fn from_i32(v: i32) -> (r: Self)
        ensures
            r.is_finite(),
            r.value() == v as real,
            v == 0 ==> r.bits == 0,
    {
        if v == 0 {
            proof {
                lemma_times_zero(two_to(-1074));
            }
            return Binary64 { bits: 0 };
        }
        let size: u64 = if v < 0 { (-(v as i64)) as u64 } else { v as u64 };
        let number: Dyadic = Dyadic { negative: v < 0, magnitude: size, exponent: 0 };
        proof {
            lemma_times_one(size as real);
        }
        let number: Dyadic = number.normalized();
        let m: u64 = number.magnitude;
        let field: u64 = (number.exponent + 1075) as u64;
        let unsigned: u64 = field * EXPONENT_UNIT + (m - EXPONENT_UNIT);
        let bits: u64 = if v < 0 { SIGN + unsigned } else { unsigned };
        Binary64 { bits }
    }

    /// The number cut off toward zero, as the nearest `i32`.
    pub fn to_i32(self) -> (r: i32)
        ensures
            r == self.as_i32(),
    {
        let negative: bool = self.bits >= SIGN;
        let unsigned: u64 = if negative { self.bits - SIGN } else { self.bits };
        if unsigned > INFINITY {
            return 0;
        }
        if unsigned == INFINITY {
            return if negative { i32::MIN } else { i32::MAX };
        }
        let exponent: u64 = unsigned / EXPONENT_UNIT;
        let fraction: u64 = unsigned % EXPONENT_UNIT;
        let number: Dyadic = if exponent == 0 {
            Dyadic { negative, magnitude: fraction, exponent: -1074 }
        } else {
            Dyadic { negative, magnitude: EXPONENT_UNIT + fraction, exponent: exponent as i32 - 1075 }
        };
        assert(number.value() == self.value());
        let whole: i64 = number.truncate();
        if whole < i32::MIN as i64 {
            i32::MIN
        } else if whole > i32::MAX as i64 {
            i32::MAX
        } else {
            whole as i32
        }
    }
}

/// Every `i32` survives being made a double and cut off again.
pub proof fn law_i32_round_trip(v: i32, x: Binary64)
    requires
        x.is_finite(),
        x.value() == v as real,
    ensures
        x.as_i32() == v,
{
}

/// Cutting off takes a number less than one toward zero. What is beyond the
/// range of an `i32` becomes the end of the range, and what is no number zero.
pub proof fn law_cut_off_is_toward_zero(x: Binary64)
    ensures
        i32::MIN <= x.as_i32() <= i32::MAX,
        x.is_nan() ==> x.as_i32() == 0,
        !x.is_nan() && !x.is_finite() ==> x.as_i32() == if x.is_negative() {
            i32::MIN as int
        } else {
            i32::MAX as int
        },
        x.is_finite() && x.value() >= 0x8000_0000int as real ==> x.as_i32() == i32::MAX,
        x.is_finite() && x.value() <= -(0x8000_0000int as real) ==> x.as_i32() == i32::MIN,
        x.is_finite() && 0 as real <= x.value() && x.value() < 0x8000_0000int as real
            ==> x.as_i32() as real <= x.value() && x.value() < (x.as_i32() + 1) as real,
        x.is_finite() && -(0x8000_0000int as real) < x.value() && x.value() <= 0 as real
            ==> x.value() <= x.as_i32() as real && x.value() > (x.as_i32() - 1) as real,
{
}

/// Minus infinity is less than all numbers, these are less than infinity, and
/// what is no number is neither less nor greater than anything.
pub proof fn law_order_of_what_is_not_finite(a: Binary64, b: Binary64)
    ensures
        a.is_nan() || b.is_nan() ==> !a.lt(b),
        !a.is_nan() && !a.is_finite() && b.is_finite() ==> (a.lt(b) <==> a.is_negative()),
        a.is_finite() && !b.is_nan() && !b.is_finite() ==> (a.lt(b) <==> !b.is_negative()),
        a.lt(b) ==> !b.lt(a),
{
}

/// Between two numbers, the order of the patterns is the order of the values.
pub proof fn law_order_is_numeric(a: Binary64, b: Binary64)
    requires
        a.is_finite(),
        b.is_finite(),
    ensures
        a.lt(b) <==> a.value() < b.value(),
{
    if a.unsigned() < b.unsigned() {
        lemma_size_order(a, b);
    } else if b.unsigned() < a.unsigned() {
        lemma_size_order(b, a);
    }
    lemma_size_nonnegative(a);
    lemma_size_nonnegative(b);
}

/// No size is negative, and only that of a zero is zero.
pub proof fn lemma_size_nonnegative(a: Binary64)
    ensures
        a.size() >= 0 as real,
        a.size() == 0 as real <==> a.unsigned() == 0,
{
    let m = a.significand() as real;
    let u = two_to(a.unit());
    lemma_two_to_positive(a.unit());
    assert(a.significand() >= 0);
    assert(a.significand() == 0 <==> a.unsigned() == 0);
    lemma_times_zero(u);
    if m > 0 as real {
        lemma_positive_product(m, u);
    }
}

/// A smaller unsigned pattern denotes a smaller size.
pub proof fn lemma_size_order(a: Binary64, b: Binary64)
    requires
        a.unsigned() < b.unsigned(),
    ensures
        a.size() < b.size(),
{
    let e = a.unsigned() / (EXPONENT_UNIT as int);
    let f = b.unsigned() / (EXPONENT_UNIT as int);
    let (m, n) = (a.significand() as real, b.significand() as real);
    let (u, v) = (two_to(a.unit()), two_to(b.unit()));
    lemma_two_to_positive(a.unit());
    assert(e <= f);
    if a.unit() == b.unit() {
        assert(a.significand() < b.significand());
        assert(m < n);
        lemma_scale_strictly(m, n, u);
    } else {
        lemma_two_to_grows(a.unit() + 1, b.unit());
        lemma_two_to_step(a.unit());
        assert(a.significand() < 2 * EXPONENT_UNIT);
        assert(b.significand() >= EXPONENT_UNIT);
        assert(m < n * (2 as real));
        lemma_scale_strictly(m, n * (2 as real), u);
        lemma_times_associates(n, 2 as real, u);
        lemma_times_commutes(2 as real, u);
        lemma_scale(u * (2 as real), v, n);
        lemma_times_commutes(n, u * (2 as real));
        lemma_times_commutes(n, v);
    }
}

/// A positive number with its significand brought to 53 bits.
pub proof fn lemma_normal_form(m: int, e: int, left: nat) -> (r: (int, int))
    requires
        0 < m < 2 * EXPONENT_UNIT,
        (m as real) * two_to(left as int) >= two_to(52),
    ensures
        EXPONENT_UNIT <= r.0 < 2 * EXPONENT_UNIT,
        (r.0 as real) * two_to(r.1) == (m as real) * two_to(e),
        e - left <= r.1 <= e,
    decreases left,
{
    assert(two_to(52) == 0x10_0000_0000_0000int as real) by {
        reveal_with_fuel(two_to, 60);
    }
    if m >= EXPONENT_UNIT {
        (m, e)
    } else {
        let x = m as real;
        if left == 0 {
            lemma_times_one(x);
        }
        lemma_two_to_step(e - 1);
        lemma_two_to_step(left - 1);
        let h = two_to(e - 1);
        let d = two_to(left - 1);
        lemma_times_associates(x, 2 as real, h);
        lemma_times_commutes(2 as real, h);
        lemma_times_associates(x, 2 as real, d);
        lemma_times_commutes(2 as real, d);
        assert((2 * m) as real == x * (2 as real));
        lemma_normal_form(2 * m, e - 1, (left - 1) as nat)
    }
}

/// A number of at most 53 bits times a power of two is a double.
pub proof fn lemma_made(negative: bool, q: int, e: int) -> (y: Binary64)
    requires
        0 < q < 2 * EXPONENT_UNIT,
        -1000 <= e <= 900,
    ensures
        y.is_finite(),
        y.is_negative() == negative,
        y.size() == (q as real) * two_to(e),
        y.significand() >= EXPONENT_UNIT,
{
    let s = q as real;
    lemma_two_to_positive(52);
    lemma_scale(1 as real, s, two_to(52));
    lemma_times_one(two_to(52));
    let (m, f) = lemma_normal_form(q, e, 52);
    let unsigned = (f + 1075) * EXPONENT_UNIT + (m - EXPONENT_UNIT);
    let bits = if negative { SIGN + unsigned } else { unsigned };
    let y = Binary64 { bits: bits as u64 };
    assert(y.unsigned() == unsigned);
    y
}

} // verus!
