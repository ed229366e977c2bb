//! Merging of spans.

use alass_stream::time_span::{merge_spans, TimeSpan};

fn ts(a: i64, b: i64) -> TimeSpan {
    TimeSpan::new(a, b)
}

#[test]
fn merge_sorts_and_coalesces() {
    let merged = merge_spans(vec![ts(1000, 2000), ts(500, 1500), ts(3000, 4000), ts(4000, 4500)]);
    assert_eq!(merged, vec![ts(500, 2000), ts(3000, 4500)]);
}

#[test]
fn merge_drops_zero_length() {
    let merged = merge_spans(vec![ts(100, 100), ts(200, 300)]);
    assert_eq!(merged, vec![ts(200, 300)]);
}

#[test]
fn merging_twice_is_merging_once() {
    let once = merge_spans(vec![ts(5, 9), ts(1, 3), ts(3, 4), ts(20, 20), ts(8, 12)]);
    assert_eq!(once, vec![ts(1, 4), ts(5, 12)]);
    assert_eq!(merge_spans(once.clone()), once);
}

#[test]
fn the_order_of_spans_does_not_matter() {
    let spans = [ts(0, 10), ts(5, 20), ts(30, 40), ts(40, 41)];
    let forward = merge_spans(spans.to_vec());
    let backward = merge_spans(spans.iter().rev().copied().collect());
    assert_eq!(forward, vec![ts(0, 20), ts(30, 41)]);
    assert_eq!(forward, backward);
}

#[test]
fn merging_nothing_gives_nothing() {
    assert!(merge_spans(Vec::new()).is_empty());
    assert!(merge_spans(vec![ts(7, 7)]).is_empty());
}
