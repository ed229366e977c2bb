//! The rules of arithmetic on real numbers, one by one, as far as proofs about
//! doubles call for them.

use vstd::prelude::*;

verus! {

pub proof fn lemma_times_commutes(a: real, b: real)
    by (nonlinear_arith)
    ensures
        a * b == b * a,
{
}

pub proof fn lemma_times_associates(a: real, b: real, c: real)
    by (nonlinear_arith)
    ensures
        (a * b) * c == a * (b * c),
{
}

pub proof fn lemma_times_distributes(a: real, b: real, c: real)
    by (nonlinear_arith)
    ensures
        (a + b) * c == a * c + b * c,
        (a - b) * c == a * c - b * c,
{
}

pub proof fn lemma_times_negative(a: real, b: real)
    by (nonlinear_arith)
    ensures
        (-a) * b == -(a * b),
        a * (-b) == -(a * b),
        (-a) * (-b) == a * b,
{
}

pub proof fn lemma_times_one(a: real)
    by (nonlinear_arith)
    ensures
        a * (1 as real) == a,
        (1 as real) * a == a,
{
}

pub proof fn lemma_times_zero(a: real)
    by (nonlinear_arith)
    ensures
        a * (0 as real) == 0 as real,
        (0 as real) * a == 0 as real,
{
}

/// A positive product of positive numbers.
pub proof fn lemma_positive_product(x: real, y: real)
    by (nonlinear_arith)
    requires
        x > 0 as real,
        y > 0 as real,
    ensures
        x * y > 0 as real,
{
}

/// Scaling keeps the strict order.
pub proof fn lemma_scale_strictly(a: real, b: real, c: real)
    requires
        a < b,
        c > 0 as real,
    ensures
        a * c < b * c,
{
    lemma_positive_product(b - a, c);
    lemma_times_distributes(b, a, c);
}

/// Scaling keeps the order.
pub proof fn lemma_scale(a: real, b: real, c: real)
    requires
        a <= b,
        c >= 0 as real,
    ensures
        a * c <= b * c,
{
    if a < b && c > 0 as real {
        lemma_scale_strictly(a, b, c);
    } else if c == 0 as real {
        lemma_times_zero(a);
        lemma_times_zero(b);
    }
}

/// A quotient, multiplied by the divisor again.
pub proof fn lemma_quotient(x: real, u: real)
    by (nonlinear_arith)
    requires
        u != 0 as real,
    ensures
        (x / u) * u == x,
{
}

/// Only one number times the divisor gives the dividend.
pub proof fn lemma_quotient_is(x: real, u: real, y: real)
    requires
        u != 0 as real,
        x == y * u,
    ensures
        x / u == y,
{
    let a = x / u;
    lemma_quotient(x, u);
    if u > 0 as real {
        if a < y {
            lemma_scale_strictly(a, y, u);
        } else if y < a {
            lemma_scale_strictly(y, a, u);
        }
    } else {
        lemma_times_negative(a, u);
        lemma_times_negative(y, u);
        if a < y {
            lemma_scale_strictly(a, y, -u);
        } else if y < a {
            lemma_scale_strictly(y, a, -u);
        }
    }
}

/// A quotient lies between two numbers if the dividend lies between their
/// products with the divisor.
pub proof fn lemma_quotient_bounds(x: real, u: real, lo: real, hi: real)
    requires
        u > 0 as real,
        lo * u <= x,
        x < hi * u,
    ensures
        lo <= x / u,
        x / u < hi,
{
    let a = x / u;
    lemma_quotient(x, u);
    if a < lo {
        lemma_scale_strictly(a, lo, u);
    }
    if a >= hi {
        lemma_scale(hi, a, u);
    }
}

/// The product of two products, with the factors in the middle exchanged.
pub proof fn lemma_times_exchange(a: real, b: real, c: real, d: real)
    ensures
        (a * b) * (c * d) == (a * c) * (b * d),
{
    lemma_times_associates(a, b, c * d);
    lemma_times_associates(b, c, d);
    lemma_times_commutes(b, c);
    lemma_times_associates(c, b, d);
    lemma_times_associates(a, c, b * d);
}

/// The product of integers is the same among real numbers.
pub proof fn lemma_whole_product(a: int, b: int)
    requires
        a >= 0,
    ensures
        (a * b) as real == (a as real) * (b as real),
    decreases a,
{
    let (x, y) = (a as real, b as real);
    if a == 0 {
        assert(a * b == 0);
        lemma_times_zero(y);
    } else {
        lemma_whole_product(a - 1, b);
        vstd::arithmetic::mul::lemma_mul_is_distributive_sub_other_way(b, a, 1);
        assert(a * b == (a - 1) * b + b);
        assert((a - 1) as real == x - 1 as real);
        lemma_times_distributes(x, 1 as real, y);
        lemma_times_one(y);
    }
}

} // verus!
