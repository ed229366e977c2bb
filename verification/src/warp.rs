//! The warp: how far the subtitle is shifted at a place on the film, given
//! the anchors around it.
//!
//! Between two anchors the shift is interpolated in double precision, with
//! every intermediate result rounded as a double is.

use crate::anchor::{count_upto, in_order, lemma_count_upto, partition_upto, Anchor};
use crate::reals::{
    lemma_quotient, lemma_quotient_is, lemma_scale, lemma_scale_strictly, lemma_times_negative,
    lemma_times_one, lemma_times_zero,
};
use crate::rounding::{
    half_away, lemma_nearest_double_grows, lemma_nearest_integer, nearest_double, saturate_i64,
    toward_zero, Dyadic,
};
use vstd::prelude::*;

verus! {

/// The shift at `t` between two anchors, as double arithmetic computes it:
/// the part of the way from one to the other, times the difference of their
/// shifts, added to the first shift.
#[verifier::opaque]
pub open spec fn between(prev: Anchor, next: Anchor, t: int) -> real {
    let span = nearest_double((next.film_position_ms - prev.film_position_ms) as real);
    let way = nearest_double((t - prev.film_position_ms) as real);
    let part = nearest_double(way / span);
    let rise = nearest_double((next.delta_ms - prev.delta_ms) as real);
    nearest_double(nearest_double(prev.delta_ms as real) + nearest_double(part * rise))
}

/// Whether an anchor is near enough to the one before it, in place and in
/// shift, that their differences do not overflow.
pub open spec fn difference_fits(anchors: Seq<Anchor>, i: int) -> bool {
    &&& anchors[i].film_position_ms - anchors[i - 1].film_position_ms <= i64::MAX
    &&& i64::MIN <= anchors[i].delta_ms - anchors[i - 1].delta_ms <= i64::MAX
}

/// Whether all neighbouring anchors are near enough to each other.
pub open spec fn differences_fit(anchors: Seq<Anchor>) -> bool {
    forall|i: int| 0 < i < anchors.len() ==> #[trigger] difference_fits(anchors, i)
}

/// The shift at `t`: that of the first anchor before it, that of the last one
/// from it on, and in between interpolated and cut off toward zero.
pub open spec fn shift_at(anchors: Seq<Anchor>, t: int) -> int {
    let k = count_upto(anchors, t);
    if anchors.len() == 0 {
        0
    } else if k == 0 {
        anchors[0].delta_ms as int
    } else if k >= anchors.len() {
        anchors.last().delta_ms as int
    } else {
        saturate_i64(toward_zero(between(anchors[k - 1], anchors[k], t)))
    }
}

/// The shift at `t`: that of the first anchor up to it, that of the last one
/// from it on, and in between interpolated and rounded to the nearest.
pub open spec fn rounded_shift_at(anchors: Seq<Anchor>, t: int) -> int {
    let k = count_upto(anchors, t);
    if anchors.len() == 0 {
        0
    } else if t <= anchors[0].film_position_ms {
        anchors[0].delta_ms as int
    } else if t >= anchors.last().film_position_ms {
        anchors.last().delta_ms as int
    } else {
        saturate_i64(half_away(between(anchors[k - 1], anchors[k], t)))
    }
}

/// The shift between two anchors, not yet made an integer.
fn interpolate(prev: Anchor, next: Anchor, t: i64) -> (r: Dyadic)
    requires
        prev.film_position_ms <= t < next.film_position_ms,
        next.film_position_ms - prev.film_position_ms <= i64::MAX,
        i64::MIN <= next.delta_ms - prev.delta_ms <= i64::MAX,
    ensures
        r.value() == between(prev, next, t as int),
        r.fits(-2000, 2000),
{
    proof {
        reveal(between);
    }
    let span: Dyadic = Dyadic::from_i64(next.film_position_ms - prev.film_position_ms);
    let way: Dyadic = Dyadic::from_i64(t - prev.film_position_ms);
    let part: Dyadic = way.over(span);
    let rise: Dyadic = Dyadic::from_i64(next.delta_ms - prev.delta_ms);
    Dyadic::from_i64(prev.delta_ms).plus(part.times(rise))
}

/// The shift at `t`, interpolated shifts cut off toward zero.
pub fn truncated_delta(anchors: &[Anchor], t: i64) -> (r: i64)
    requires
        in_order(anchors@),
        differences_fit(anchors@),
    ensures
        r == shift_at(anchors@, t as int),
{
    if anchors.len() == 0 {
        return 0;
    }
    let idx: usize = partition_upto(anchors, t);
    if idx == 0 {
        return anchors[0].delta_ms;
    }
    if idx >= anchors.len() {
        return anchors[anchors.len() - 1].delta_ms;
    }
    let prev: Anchor = anchors[idx - 1];
    let next: Anchor = anchors[idx];
    assert(difference_fits(anchors@, idx as int));
    interpolate(prev, next, t).truncate()
}

/// Interpolate the warp delta at a given film position using piecewise linear
/// interpolation over a sorted list of anchors.
///
/// - Before the first anchor: flat extrapolation (hold first delta).
/// - After the last anchor: flat extrapolation (hold last delta).
/// - Between two anchors: linear interpolation.
pub fn interpolate_delta(anchors: &[Anchor], film_time_ms: i64) -> (r: i64)
    requires
        in_order(anchors@),
        differences_fit(anchors@),
    ensures
        r == rounded_shift_at(anchors@, film_time_ms as int),
{
    if anchors.len() == 0 {
        return 0;
    }
    let first: Anchor = anchors[0];
    let last: Anchor = anchors[anchors.len() - 1];
    if film_time_ms <= first.film_position_ms {
        return first.delta_ms;
    }
    if film_time_ms >= last.film_position_ms {
        return last.delta_ms;
    }
    let idx: usize = partition_upto(anchors, film_time_ms);
    let prev: Anchor = anchors[idx - 1];
    let next: Anchor = anchors[idx];
    assert(difference_fits(anchors@, idx as int));
    interpolate(prev, next, film_time_ms).round()
}

/// Whether positions, shifts and their differences are integers that doubles
/// hold exactly.
pub open spec fn exactly_held(prev: Anchor, next: Anchor) -> bool {
    &&& next.film_position_ms - prev.film_position_ms <= 0x20_0000_0000_0000
    &&& -0x20_0000_0000_0000 <= prev.delta_ms <= 0x20_0000_0000_0000
    &&& -0x20_0000_0000_0000 <= next.delta_ms <= 0x20_0000_0000_0000
    &&& -0x20_0000_0000_0000 <= next.delta_ms - prev.delta_ms <= 0x20_0000_0000_0000
}

/// Between two anchors the shift lies between their shifts.
pub proof fn law_shift_lies_between_neighbours(prev: Anchor, next: Anchor, t: int)
    requires
        exactly_held(prev, next),
        prev.film_position_ms <= t < next.film_position_ms,
    ensures
        prev.delta_ms <= next.delta_ms ==> prev.delta_ms as real <= between(prev, next, t)
            && between(prev, next, t) <= next.delta_ms as real,
        prev.delta_ms >= next.delta_ms ==> next.delta_ms as real <= between(prev, next, t)
            && between(prev, next, t) <= prev.delta_ms as real,
{
    reveal(between);
    let s = (next.film_position_ms - prev.film_position_ms) as real;
    let w = (t - prev.film_position_ms) as real;
    let d = prev.delta_ms as real;
    let r = (next.delta_ms - prev.delta_ms) as real;
    let (zero, one) = (0 as real, 1 as real);
    lemma_nearest_integer(next.film_position_ms - prev.film_position_ms);
    lemma_nearest_integer(t - prev.film_position_ms);
    lemma_nearest_integer(prev.delta_ms as int);
    lemma_nearest_integer(next.delta_ms as int);
    lemma_nearest_integer(next.delta_ms - prev.delta_ms);
    lemma_nearest_integer(0);
    lemma_nearest_integer(1);
    let q = w / s;
    lemma_quotient(w, s);
    assert(zero <= q && q <= one) by {
        lemma_times_zero(s);
        lemma_times_one(s);
        if q < zero {
            lemma_scale_strictly(q, zero, s);
        }
        if q > one {
            lemma_scale_strictly(one, q, s);
        }
    }
    lemma_nearest_double_grows(zero, q);
    lemma_nearest_double_grows(q, one);
    let part = nearest_double(q);
    assert(zero <= part && part <= one);
    let p = part * r;
    lemma_times_zero(r);
    lemma_times_one(r);
    if prev.delta_ms <= next.delta_ms {
        lemma_scale(zero, part, r);
        lemma_scale(part, one, r);
        lemma_nearest_double_grows(zero, p);
        lemma_nearest_double_grows(p, r);
        lemma_nearest_double_grows(d, d + nearest_double(p));
        lemma_nearest_double_grows(d + nearest_double(p), d + r);
    }
    if prev.delta_ms >= next.delta_ms {
        lemma_scale(zero, part, -r);
        lemma_scale(part, one, -r);
        lemma_times_negative(part, r);
        lemma_times_one(-r);
        lemma_times_zero(-r);
        lemma_nearest_double_grows(p, zero);
        lemma_nearest_double_grows(r, p);
        lemma_nearest_double_grows(d + nearest_double(p), d);
        lemma_nearest_double_grows(d + r, d + nearest_double(p));
    }
}

/// Where the way between two anchors begins, the shift is that of the first.
proof fn lemma_between_at_start(prev: Anchor, next: Anchor)
    requires
        exactly_held(prev, next),
        prev.film_position_ms < next.film_position_ms,
    ensures
        between(prev, next, prev.film_position_ms as int) == prev.delta_ms as real,
{
    reveal(between);
    lemma_nearest_integer(next.film_position_ms - prev.film_position_ms);
    lemma_nearest_integer(0);
    lemma_nearest_integer(prev.delta_ms as int);
    let s = (next.film_position_ms - prev.film_position_ms) as real;
    let r = nearest_double((next.delta_ms - prev.delta_ms) as real);
    lemma_times_zero(s);
    lemma_quotient_is(0 as real, s, 0 as real);
    lemma_times_zero(r);
}

/// On the way from one anchor to the next the shift never turns back.
pub proof fn law_shift_moves_one_way(prev: Anchor, next: Anchor, t: int, later: int)
    requires
        exactly_held(prev, next),
        prev.film_position_ms <= t <= later < next.film_position_ms,
    ensures
        prev.delta_ms <= next.delta_ms ==> between(prev, next, t) <= between(prev, next, later),
        prev.delta_ms >= next.delta_ms ==> between(prev, next, t) >= between(prev, next, later),
{
    reveal(between);
    let s = (next.film_position_ms - prev.film_position_ms) as real;
    let (w, v) = (
        (t - prev.film_position_ms) as real,
        (later - prev.film_position_ms) as real,
    );
    let d = prev.delta_ms as real;
    let r = (next.delta_ms - prev.delta_ms) as real;
    lemma_nearest_integer(next.film_position_ms - prev.film_position_ms);
    lemma_nearest_integer(t - prev.film_position_ms);
    lemma_nearest_integer(later - prev.film_position_ms);
    lemma_nearest_integer(prev.delta_ms as int);
    lemma_nearest_integer(next.delta_ms - prev.delta_ms);
    let (a, b) = (w / s, v / s);
    lemma_quotient(w, s);
    lemma_quotient(v, s);
    assert(a <= b) by {
        if b < a {
            lemma_scale_strictly(b, a, s);
        }
    }
    lemma_nearest_double_grows(a, b);
    let (m, n) = (nearest_double(a), nearest_double(b));
    if prev.delta_ms <= next.delta_ms {
        lemma_scale(m, n, r);
        lemma_nearest_double_grows(m * r, n * r);
        lemma_nearest_double_grows(d + nearest_double(m * r), d + nearest_double(n * r));
    }
    if prev.delta_ms >= next.delta_ms {
        lemma_scale(m, n, -r);
        lemma_times_negative(m, r);
        lemma_times_negative(n, r);
        lemma_nearest_double_grows(n * r, m * r);
        lemma_nearest_double_grows(d + nearest_double(n * r), d + nearest_double(m * r));
    }
}

/// Whether all anchors are in order and doubles hold every neighbouring pair
/// exactly.
pub open spec fn all_exactly_held(anchors: Seq<Anchor>) -> bool {
    &&& in_order(anchors)
    &&& forall|i: int| 0 < i < anchors.len() ==> #[trigger] held_after(anchors, i)
}

/// Whether doubles hold an anchor and the one before it exactly.
pub open spec fn held_after(anchors: Seq<Anchor>, i: int) -> bool {
    exactly_held(anchors[i - 1], anchors[i])
}

/// At an anchor that stands alone at its place the shift is that of the
/// anchor.
pub proof fn law_shift_is_exact_at_anchors(anchors: Seq<Anchor>, i: int)
    requires
        all_exactly_held(anchors),
        0 <= i < anchors.len(),
        i > 0 ==> anchors[i - 1].film_position_ms < anchors[i].film_position_ms,
        i + 1 < anchors.len() ==> anchors[i].film_position_ms < anchors[i + 1].film_position_ms,
    ensures
        shift_at(anchors, anchors[i].film_position_ms as int) == anchors[i].delta_ms,
        rounded_shift_at(anchors, anchors[i].film_position_ms as int) == anchors[i].delta_ms,
{
    let t = anchors[i].film_position_ms as int;
    let n = anchors.len() as int;
    assert forall|j: int| i + 1 <= j < n implies (#[trigger] anchors[j]).film_position_ms > t by {
        assert(anchors[i + 1].film_position_ms <= anchors[j].film_position_ms);
    }
    lemma_count_upto(anchors, t, i + 1);
    if i + 1 < n {
        assert(held_after(anchors, i + 1));
        lemma_between_at_start(anchors[i], anchors[i + 1]);
    }
    if i > 0 {
        assert(anchors[0].film_position_ms <= anchors[i - 1].film_position_ms);
    }
}

/// The shift is flat before the first anchor and from the last one on.
pub proof fn law_shift_is_flat_outside(anchors: Seq<Anchor>, t: int)
    requires
        in_order(anchors),
        anchors.len() > 0,
    ensures
        t < anchors[0].film_position_ms ==> shift_at(anchors, t) == anchors[0].delta_ms,
        t >= anchors.last().film_position_ms ==> shift_at(anchors, t) == anchors.last().delta_ms,
        t <= anchors[0].film_position_ms ==> rounded_shift_at(anchors, t) == anchors[0].delta_ms,
        t >= anchors.last().film_position_ms && t > anchors[0].film_position_ms
            ==> rounded_shift_at(anchors, t) == anchors.last().delta_ms,
{
    if t < anchors[0].film_position_ms {
        lemma_count_upto(anchors, t, 0);
    }
    if t >= anchors.last().film_position_ms {
        lemma_count_upto(anchors, t, anchors.len() as int);
    }
}

/// Everywhere the shift is no less than the least and no greater than the
/// greatest shift of the anchors.
pub proof fn law_shift_stays_in_range(anchors: Seq<Anchor>, t: int, lo: int, hi: int)
    requires
        all_exactly_held(anchors),
        anchors.len() > 0,
        i64::MIN <= lo,
        hi <= i64::MAX,
        forall|i: int|
            0 <= i < anchors.len() ==> lo <= (#[trigger] anchors[i]).delta_ms <= hi,
    ensures
        lo <= shift_at(anchors, t) <= hi,
        lo <= rounded_shift_at(anchors, t) <= hi,
{
    let n = anchors.len() as int;
    let k = lemma_split(anchors, t);
    assert(lo <= anchors[0].delta_ms <= hi);
    assert(lo <= anchors[n - 1].delta_ms <= hi);
    if 0 < k < n {
        let (prev, next) = (anchors[k - 1], anchors[k]);
        assert(held_after(anchors, k));
        law_shift_lies_between_neighbours(prev, next, t);
        let x = between(prev, next, t);
        assert(lo <= prev.delta_ms <= hi && lo <= next.delta_ms <= hi);
        assert(lo as real <= x && x <= hi as real);
        lemma_toward_zero_bounds(x, lo, hi);
    }
}

/// Where the anchors past `t` begin.
pub(crate) proof fn lemma_split(anchors: Seq<Anchor>, t: int) -> (k: int)
    requires
        in_order(anchors),
    ensures
        0 <= k <= anchors.len(),
        k == count_upto(anchors, t),
        forall|i: int| 0 <= i < k ==> (#[trigger] anchors[i]).film_position_ms <= t,
        forall|i: int| k <= i < anchors.len() ==> (#[trigger] anchors[i]).film_position_ms > t,
    decreases anchors.len(),
{
    if anchors.len() == 0 {
        0
    } else {
        let n = anchors.len() as int;
        let rest = anchors.drop_last();
        let k = lemma_split(rest, t);
        let m = if anchors.last().film_position_ms <= t {
            n
        } else {
            k
        };
        assert forall|i: int| 0 <= i < m implies (#[trigger] anchors[i]).film_position_ms <= t by {
            if i < k {
                assert(rest[i].film_position_ms <= t);
            }
        }
        assert forall|i: int| m <= i < n implies (#[trigger] anchors[i]).film_position_ms > t by {
            if i < n - 1 {
                assert(rest[i].film_position_ms > t);
            }
        }
        lemma_count_upto(anchors, t, m);
        m
    }
}

/// Making a number an integer does not take it past integers around it.
proof fn lemma_toward_zero_bounds(x: real, lo: int, hi: int)
    requires
        lo as real <= x,
        x <= hi as real,
    ensures
        lo <= toward_zero(x) <= hi,
        lo <= half_away(x) <= hi,
{
}

} // verus!
