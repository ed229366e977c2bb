//! How near the shift between two anchors comes to the straight line.

use crate::anchor::{in_order, lemma_count_upto, Anchor};
use crate::reals::{
    lemma_quotient, lemma_scale, lemma_scale_strictly, lemma_times_associates,
    lemma_times_commutes, lemma_times_distributes, lemma_times_negative, lemma_times_one,
    lemma_times_zero, lemma_whole_product,
};
use crate::rounding::{
    half_away, lemma_nearest_double_error, lemma_nearest_double_grows, lemma_nearest_integer,
    nearest_double, toward_zero,
};
use crate::warp::{
    between, exactly_held, law_shift_lies_between_neighbours, rounded_shift_at, shift_at,
};
use vstd::prelude::*;

verus! {

/// The size of a number.
pub open spec fn size_of(x: real) -> real {
    if x >= 0 as real {
        x
    } else {
        -x
    }
}

/// The rounded product misses the exact one by no more than two parts in
/// `2^53` of the rise.
proof fn lemma_rise_error(q: real, r: real)
    requires
        0 as real <= q,
        q <= 1 as real,
    ensures
        size_of(nearest_double(nearest_double(q) * r) - q * r) * (0x20_0000_0000_0000int as real)
            <= (2 as real) * size_of(r),
        r >= 0 as real ==> 0 as real <= nearest_double(q) * r && nearest_double(q) * r <= r,
        r <= 0 as real ==> 0 as real >= nearest_double(q) * r && nearest_double(q) * r >= r,
{
    let (zero, one) = (0 as real, 1 as real);
    let part = nearest_double(q);
    lemma_nearest_integer(0);
    lemma_nearest_integer(1);
    lemma_nearest_double_grows(zero, q);
    lemma_nearest_double_grows(q, one);
    lemma_nearest_double_error(q);
    lemma_times_distributes(part, q, r);
    lemma_times_zero(r);
    lemma_times_one(r);
    let fine = (1 as real) / (0x20_0000_0000_0000int as real);
    let miss = part - q;
    assert(miss <= fine && -miss <= fine);
    let p = part * r;
    if r >= zero {
        lemma_scale(zero, part, r);
        lemma_scale(part, one, r);
        lemma_scale(miss, fine, r);
        lemma_scale(-miss, fine, r);
        lemma_times_negative(miss, r);
    } else {
        lemma_times_negative(part, r);
        lemma_times_negative(one, r);
        lemma_times_negative(zero, r);
        lemma_times_negative(miss, r);
        lemma_times_negative(fine, r);
        lemma_scale(zero, part, -r);
        lemma_scale(part, one, -r);
        lemma_scale(miss, fine, -r);
        lemma_scale(-miss, fine, -r);
    }
    lemma_nearest_double_error(p);
}

/// Between two anchors the shift lies on the straight line from one to the
/// other, but for what rounding to doubles loses: no more than so many parts
/// in `2^53` as the sum of twice the difference of the two shifts and the
/// larger of them.
pub proof fn law_interpolation_is_linear(prev: Anchor, next: Anchor, t: int)
    requires
        exactly_held(prev, next),
        prev.film_position_ms <= t < next.film_position_ms,
    ensures
        ({
            let span = (next.film_position_ms - prev.film_position_ms) as real;
            let way = (t - prev.film_position_ms) as real;
            let rise = (next.delta_ms - prev.delta_ms) as real;
            let line = prev.delta_ms as real + (way / span) * rise;
            let miss = size_of(between(prev, next, t) - line) * (0x20_0000_0000_0000int as real);
            ||| miss <= (2 as real) * size_of(rise) + size_of(prev.delta_ms as real)
            ||| miss <= (2 as real) * size_of(rise) + size_of(next.delta_ms as real)
        }),
{
    reveal(between);
    let s = (next.film_position_ms - prev.film_position_ms) as real;
    let w = (t - prev.film_position_ms) as real;
    let d = prev.delta_ms as real;
    let r = (next.delta_ms - prev.delta_ms) as real;
    let (zero, one) = (0 as real, 1 as real);
    lemma_nearest_integer(next.film_position_ms - prev.film_position_ms);
    lemma_nearest_integer(t - prev.film_position_ms);
    lemma_nearest_integer(prev.delta_ms as int);
    lemma_nearest_integer(next.delta_ms - prev.delta_ms);
    lemma_nearest_integer(0);
    let q = w / s;
    lemma_quotient(w, s);
    assert(zero <= q && q <= one) by {
        lemma_times_zero(s);
        lemma_times_one(s);
        if q < zero {
            lemma_scale_strictly(q, zero, s);
        }
        if q > one {
            lemma_scale_strictly(one, q, s);
        }
    }
    lemma_rise_error(q, r);
    let p = nearest_double(q) * r;
    if r >= zero {
        lemma_nearest_double_grows(zero, p);
        lemma_nearest_double_grows(p, r);
    } else {
        lemma_nearest_double_grows(p, zero);
        lemma_nearest_double_grows(r, p);
    }
    lemma_nearest_double_error(d + nearest_double(p));
}

/// The same with integers, for shifts of less than thirty years. Cut off
/// toward zero the shift misses the straight line by less than one and a
/// thousandth, and is larger than it by no more than a thousandth; rounded it
/// misses it by no more than a half and a thousandth.
pub proof fn law_shift_is_linear_between_anchors(anchors: Seq<Anchor>, i: int, t: int)
    requires
        in_order(anchors),
        0 < i < anchors.len(),
        exactly_held(anchors[i - 1], anchors[i]),
        anchors[i - 1].film_position_ms <= t < anchors[i].film_position_ms,
        -0x100_0000_0000 <= anchors[i - 1].delta_ms <= 0x100_0000_0000,
        -0x100_0000_0000 <= anchors[i].delta_ms <= 0x100_0000_0000,
    ensures
        ({
            let (prev, next) = (anchors[i - 1], anchors[i]);
            let span = next.film_position_ms - prev.film_position_ms;
            let line = span * prev.delta_ms + (t - prev.film_position_ms) * (next.delta_ms
                - prev.delta_ms);
            let cut = span * shift_at(anchors, t);
            let rounded = span * rounded_shift_at(anchors, t);
            &&& -1001 * span <= 1000 * (cut - line) <= 1001 * span
            &&& line >= 0 ==> 1000 * cut <= 1000 * line + span
            &&& line <= 0 ==> 1000 * cut >= 1000 * line - span
            &&& t > anchors[0].film_position_ms || i == 1 ==> -501 * span <= 1000 * (rounded - line)
                <= 501 * span
        }),
{
    let (prev, next) = (anchors[i - 1], anchors[i]);
    let span = next.film_position_ms - prev.film_position_ms;
    let way = t - prev.film_position_ms;
    let rise = next.delta_ms - prev.delta_ms;
    let x = between(prev, next, t);
    assert forall|j: int| i <= j < anchors.len() implies (#[trigger] anchors[j]).film_position_ms
        > t by {
        assert(anchors[i].film_position_ms <= anchors[j].film_position_ms);
    }
    assert forall|j: int| 0 <= j < i implies (#[trigger] anchors[j]).film_position_ms <= t by {
        assert(anchors[j].film_position_ms <= anchors[i - 1].film_position_ms);
    }
    lemma_count_upto(anchors, t, i);
    law_shift_lies_between_neighbours(prev, next, t);
    law_interpolation_is_linear(prev, next, t);
    let q = way as real / (span as real);
    let y = prev.delta_ms as real + q * (rise as real);
    let fine = (1 as real) / (1000 as real);
    assert(size_of(x - y) < fine);
    lemma_line_scaled(prev.delta_ms as int, way, span, rise);
    let line = span * prev.delta_ms + way * rise;
    let s = span as real;
    assert(shift_at(anchors, t) == toward_zero(x));
    lemma_scaled_miss(
        toward_zero(x),
        y,
        span,
        line,
        (1001 as real) / (1000 as real),
    );
    lemma_cut_off(x, y, span, line);
    if t > anchors[0].film_position_ms {
        assert(t < anchors.last().film_position_ms);
        assert(rounded_shift_at(anchors, t) == half_away(x));
        lemma_scaled_miss(half_away(x), y, span, line, (501 as real) / (1000 as real));
    } else if i == 1 {
        assert(way == 0);
        assert(way * rise == 0) by {
            vstd::arithmetic::mul::lemma_mul_basics(rise);
        }
    }
}

/// The straight line, multiplied by the distance of the anchors.
proof fn lemma_line_scaled(d: int, w: int, s: int, r: int)
    requires
        0 <= w,
        0 < s,
    ensures
        (d as real + (w as real / (s as real)) * (r as real)) * (s as real) == (s * d + w
            * r) as real,
{
    let (dd, ww, ss, rr) = (d as real, w as real, s as real, r as real);
    let q = ww / ss;
    lemma_quotient(ww, ss);
    lemma_times_distributes(dd, q * rr, ss);
    lemma_times_associates(q, rr, ss);
    lemma_times_commutes(rr, ss);
    lemma_times_associates(q, ss, rr);
    lemma_whole_product(w, r);
    lemma_whole_product(s, d);
    lemma_times_commutes(ss, dd);
}

/// How far an integer misses a number, multiplied by a distance.
proof fn lemma_scaled_miss(k: int, y: real, span: int, line: int, bound: real)
    requires
        0 < span,
        size_of(k as real - y) <= bound,
        y * (span as real) == line as real,
    ensures
        (span * k - line) as real <= bound * (span as real),
        (line - span * k) as real <= bound * (span as real),
{
    let (s, x) = (span as real, k as real);
    lemma_scale(x - y, bound, s);
    lemma_scale(y - x, bound, s);
    lemma_times_distributes(x, y, s);
    lemma_times_distributes(y, x, s);
    lemma_whole_product(span, k);
    lemma_times_commutes(s, x);
}

/// Cutting off toward zero takes a number no further from zero.
proof fn lemma_cut_off(x: real, y: real, span: int, line: int)
    requires
        0 < span,
        size_of(x - y) <= (1 as real) / (1000 as real),
        y * (span as real) == line as real,
    ensures
        line >= 0 ==> 1000 * (span * toward_zero(x)) <= 1000 * line + span,
        line <= 0 ==> 1000 * (span * toward_zero(x)) >= 1000 * line - span,
{
    let (s, zero) = (span as real, 0 as real);
    let k = toward_zero(x) as real;
    let fine = (1 as real) / (1000 as real);
    lemma_times_zero(s);
    lemma_whole_product(span, toward_zero(x));
    lemma_times_commutes(s, k);
    lemma_times_distributes(k, y, s);
    lemma_times_distributes(y, k, s);
    if line >= 0 {
        if y < zero {
            lemma_scale_strictly(y, zero, s);
        }
        assert(k - y <= fine);
        lemma_scale(k - y, fine, s);
    }
    if line <= 0 {
        if y > zero {
            lemma_scale_strictly(zero, y, s);
        }
        assert(y - k <= fine);
        lemma_scale(y - k, fine, s);
    }
}

} // verus!
