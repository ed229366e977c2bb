//! Interpolation between anchors.

use alass_stream::binary64::Binary64;
use alass_stream::engine::Anchor;
use alass_stream::warp::interpolate_delta;

fn make_anchor(film_pos_ms: i64, delta_ms: i64) -> Anchor {
    Anchor {
        id: uuid::Uuid::new_v4().as_u128(),
        film_position_ms: film_pos_ms,
        delta_ms,
        confidence: Binary64::from_bits(1.0f64.to_bits()),
        line_start: 0,
        line_end: 1,
        chunk_id: uuid::Uuid::new_v4().as_u128(),
    }
}

#[test]
fn empty_anchors_returns_zero() {
    assert_eq!(interpolate_delta(&[], 5000), 0);
}

#[test]
fn single_anchor_flat() {
    let anchors = vec![make_anchor(10_000, 500)];
    assert_eq!(interpolate_delta(&anchors, 0), 500);
    assert_eq!(interpolate_delta(&anchors, 10_000), 500);
    assert_eq!(interpolate_delta(&anchors, 99_999), 500);
}

#[test]
fn two_anchors_interpolation() {
    let anchors = vec![make_anchor(0, 0), make_anchor(10_000, 1_000)];
    assert_eq!(interpolate_delta(&anchors, 0), 0);
    assert_eq!(interpolate_delta(&anchors, 5_000), 500);
    assert_eq!(interpolate_delta(&anchors, 10_000), 1_000);
    assert_eq!(interpolate_delta(&anchors, 20_000), 1_000);
}

#[test]
fn before_first_anchor_extrapolates_flat() {
    let anchors = vec![make_anchor(10_000, 200), make_anchor(20_000, 400)];
    assert_eq!(interpolate_delta(&anchors, 5_000), 200);
}

#[test]
fn after_last_anchor_extrapolates_flat() {
    let anchors = vec![make_anchor(10_000, 200), make_anchor(20_000, 400)];
    assert_eq!(interpolate_delta(&anchors, 30_000), 400);
}
