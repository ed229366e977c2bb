//! Double-precision arithmetic against that of the machine.

use alass_stream::binary64::Binary64;
use alass_stream::rounding::Dyadic;
use alass_stream::text::{decimal, padded_decimal, timestamp_text};
use alass_stream::warp::{interpolate_delta, truncated_delta};
use alass_stream::engine::Anchor;

fn double(v: f64) -> Binary64 {
    Binary64::from_bits(v.to_bits())
}

fn lcg(x: u64) -> u64 {
    x.wrapping_mul(6364136223846793005).wrapping_add(1442695040888963407)
}

/// The machine's number for a dyadic one.
fn machine(d: Dyadic) -> f64 {
    let size = d.magnitude as f64 * 2f64.powi(d.exponent);
    if d.negative {
        -size
    } else {
        size
    }
}

fn anchor(film_position_ms: i64, delta_ms: i64) -> Anchor {
    Anchor {
        id: 1,
        film_position_ms,
        delta_ms,
        confidence: double(1.0),
        line_start: 0,
        line_end: 1,
        chunk_id: 2,
    }
}

#[test]
fn integers_become_the_nearest_double() {
    let mut x: u64 = 1;
    for shift in 0..64 {
        for _ in 0..20 {
            x = lcg(x);
            let v = (x >> shift) as i64;
            assert_eq!(machine(Dyadic::from_i64(v)), v as f64, "{v}");
        }
    }
    for v in [0, 1, -1, i64::MAX, i64::MIN, (1 << 53) + 1, (1 << 53) + 3, -((1 << 54) + 2)] {
        assert_eq!(machine(Dyadic::from_i64(v)), v as f64, "{v}");
    }
}

#[test]
fn arithmetic_is_that_of_doubles() {
    let mut x: u64 = 7;
    for round in 0..4000 {
        x = lcg(x);
        let a = (x as i64) >> (round % 60);
        x = lcg(x);
        let b = (x as i64) >> ((round * 7) % 60);
        let (p, q) = (Dyadic::from_i64(a), Dyadic::from_i64(b));
        let (f, g) = (a as f64, b as f64);
        assert_eq!(machine(p.times(q)), f * g, "{a} * {b}");
        assert_eq!(machine(p.plus(q)), f + g, "{a} + {b}");
        if b != 0 {
            let quotient = p.over(q);
            assert_eq!(machine(quotient), f / g, "{a} / {b}");
            assert_eq!(machine(quotient.plus(q)), f / g + g, "{a} / {b} + {b}");
            assert_eq!(machine(quotient.times(p)), f / g * f, "{a} / {b} * {a}");
            assert_eq!(quotient.truncate(), (f / g) as i64, "{a} / {b}");
            assert_eq!(quotient.round(), (f / g).round() as i64, "{a} / {b}");
        }
    }
}

#[test]
fn halves_are_rounded_away_from_zero() {
    let two = Dyadic::from_i64(2);
    for (v, cut, rounded) in [(1, 0, 1), (-1, 0, -1), (5, 2, 3), (-5, -2, -3), (4, 2, 2)] {
        let half = Dyadic::from_i64(v).over(two);
        assert_eq!(half.truncate(), cut);
        assert_eq!(half.round(), rounded);
    }
}

#[test]
fn conversions_saturate() {
    let far = Dyadic::from_i64(i64::MAX).times(Dyadic::from_i64(i64::MAX));
    assert_eq!(far.truncate(), i64::MAX);
    assert_eq!(far.round(), i64::MAX);
    let far_below = Dyadic::from_i64(i64::MIN).times(Dyadic::from_i64(i64::MAX));
    assert_eq!(far_below.truncate(), i64::MIN);
    assert_eq!(far_below.round(), i64::MIN);
}

#[test]
fn every_integer_survives_the_way_through_a_double() {
    let mut x: u64 = 3;
    for _ in 0..2000 {
        x = lcg(x);
        let v = (x >> 32) as i32;
        assert_eq!(Binary64::from_i32(v), double(v as f64));
        assert_eq!(Binary64::from_i32(v).to_i32(), v);
    }
    for v in [0, 1, -1, i32::MAX, i32::MIN] {
        assert_eq!(Binary64::from_i32(v), double(v as f64));
        assert_eq!(Binary64::from_i32(v).to_i32(), v);
    }
}

#[test]
fn doubles_are_cut_off_to_integers() {
    for v in [
        0.0, -0.0, 0.9, -0.9, 1.5, -1.5, 7.0, 1e9, -1e9, 2147483647.5, 1e300, -1e300, 1e-300,
        f64::INFINITY, f64::NEG_INFINITY, f64::NAN, f64::MIN_POSITIVE, 5e-324,
    ] {
        assert_eq!(double(v).to_i32(), v as i32, "{v}");
    }
}

#[test]
fn doubles_are_ordered_by_value() {
    let values = [
        f64::NEG_INFINITY, -1e300, -2.5, -1.0, -5e-324, -0.0, 0.0, 5e-324, 0.05, 1.0, 2.5, 1e300,
        f64::INFINITY, f64::NAN,
    ];
    for a in values {
        for b in values {
            assert_eq!(double(a).less_than(double(b)), a < b, "{a} < {b}");
        }
    }
}

#[test]
fn interpolation_cuts_off_or_rounds() {
    let anchors = [anchor(0, 0), anchor(3, 2)];
    assert_eq!(truncated_delta(&anchors, 1), 0);
    assert_eq!(interpolate_delta(&anchors, 1), 1);
    assert_eq!(truncated_delta(&anchors, 2), 1);
    assert_eq!(interpolate_delta(&anchors, 2), 1);
    let falling = [anchor(0, 0), anchor(3, -2)];
    assert_eq!(truncated_delta(&falling, 1), 0);
    assert_eq!(interpolate_delta(&falling, 1), -1);
}

#[test]
fn interpolation_is_that_of_doubles() {
    let mut x: u64 = 11;
    for _ in 0..2000 {
        x = lcg(x);
        let start = (x >> 40) as i64;
        x = lcg(x);
        let span = 1 + (x >> 44) as i64;
        x = lcg(x);
        let from = ((x >> 36) as i64) - (1 << 27);
        x = lcg(x);
        let to = ((x >> 36) as i64) - (1 << 27);
        x = lcg(x);
        let t = start + (x % span as u64) as i64;
        let anchors = [anchor(start, from), anchor(start + span, to)];
        let exact = from as f64 + (t - start) as f64 / span as f64 * (to - from) as f64;
        assert_eq!(truncated_delta(&anchors, t), exact as i64);
        if t > start {
            assert_eq!(interpolate_delta(&anchors, t), exact.round() as i64);
        }
        let (low, high) = (from.min(to), from.max(to));
        assert!((low..=high).contains(&truncated_delta(&anchors, t)));
    }
}

#[test]
fn two_anchors_at_one_place_do_not_divide_by_zero() {
    let anchors = [anchor(10, 1), anchor(10, 5), anchor(20, 7)];
    assert_eq!(truncated_delta(&anchors, 10), 5);
    assert_eq!(truncated_delta(&anchors, 9), 1);
    assert_eq!(truncated_delta(&anchors, 15), 6);
}

#[test]
fn numbers_as_text() {
    assert_eq!(decimal(0), "0");
    assert_eq!(decimal(u64::MAX), "18446744073709551615");
    assert_eq!(padded_decimal(7, 3), "007");
    assert_eq!(padded_decimal(1234, 3), "1234");
    assert_eq!(timestamp_text(0), "00:00:00,000");
    assert_eq!(timestamp_text(360_000_000), "100:00:00,000");
}

#[test]
fn the_shift_moves_one_way_and_meets_the_anchors() {
    let anchors = [anchor(0, -5), anchor(7, 20), anchor(30, -3)];
    for a in anchors {
        assert_eq!(truncated_delta(&anchors, a.film_position_ms), a.delta_ms);
        assert_eq!(interpolate_delta(&anchors, a.film_position_ms), a.delta_ms);
    }
    for t in 0..6 {
        assert!(truncated_delta(&anchors, t) <= truncated_delta(&anchors, t + 1));
        assert!(interpolate_delta(&anchors, t) <= interpolate_delta(&anchors, t + 1));
    }
    for t in 7..29 {
        assert!(truncated_delta(&anchors, t) >= truncated_delta(&anchors, t + 1));
        assert!(interpolate_delta(&anchors, t) >= interpolate_delta(&anchors, t + 1));
    }
    assert_eq!(truncated_delta(&anchors, -100), -5);
    assert_eq!(truncated_delta(&anchors, 100), -3);
}

#[test]
fn narrowing_gives_the_nearest_single() {
    assert_eq!(double(0.05).narrow().to_bits(), 0x3fa9_9999_a000_0000);
    assert_eq!(double(0.0).narrow().to_bits(), 0);
    assert_eq!(double(-0.0).narrow(), double(-0.0));
    assert_eq!(double(1e300).narrow(), double(f64::INFINITY));
    assert_eq!(double(-1e300).narrow(), double(f64::NEG_INFINITY));
    assert!(f64::from_bits(double(f64::NAN).narrow().to_bits()).is_nan());
    let mut x: u64 = 3;
    for round in 0..40_000u64 {
        x = lcg(x);
        // patterns of all exponents, most of them near the range of singles
        let bits = match round % 4 {
            0 => x,
            1 => (x & !(0x7ff << 52)) | ((860 + (x >> 33) % 320) << 52),
            2 => (x & !(0x7ff << 52) & !0x1fff_ffff) | ((860 + (x >> 33) % 320) << 52) | 0x1000_0000,
            _ => (x & !(0x7ff << 52) & !0x0fff_ffff) | ((890 + (x >> 33) % 20) << 52),
        };
        let v = f64::from_bits(bits);
        if v.is_nan() {
            continue;
        }
        let nearest = (v as f32) as f64;
        assert_eq!(double(v).narrow(), double(nearest), "{bits:x}");
        assert_eq!(double(nearest).narrow(), double(nearest), "{bits:x}");
    }
}
