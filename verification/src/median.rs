//! The median of a list of shifts.

use vstd::prelude::*;

verus! {

/// How many of the values are less than `v`.
pub open spec fn count_below(values: Seq<i64>, v: i64) -> int
    decreases values.len(),
{
    if values.len() == 0 {
        0
    } else {
        count_below(values.drop_last(), v) + if values.last() < v {
            1int
        } else {
            0int
        }
    }
}

/// How many of the values are at most `v`.
pub open spec fn count_at_most(values: Seq<i64>, v: i64) -> int
    decreases values.len(),
{
    if values.len() == 0 {
        0
    } else {
        count_at_most(values.drop_last(), v) + if values.last() <= v {
            1int
        } else {
            0int
        }
    }
}

/// Whether `v` is the value in the middle: at most half of the values are
/// less, and more than half are no greater. Of the two values in the middle
/// of an even number this is the upper one.
pub open spec fn is_median(values: Seq<i64>, v: i64) -> bool {
    &&& values.contains(v)
    &&& count_below(values, v) <= values.len() / 2
    &&& count_at_most(values, v) > values.len() / 2
}

/// A list has only one median.
pub proof fn law_median_is_unique(values: Seq<i64>, a: i64, b: i64)
    requires
        is_median(values, a),
        is_median(values, b),
    ensures
        a == b,
{
    if a < b {
        lemma_counts(values, a, b);
    } else if b < a {
        lemma_counts(values, b, a);
    }
}

/// What is at most `a` is below a greater `b`.
proof fn lemma_counts(values: Seq<i64>, a: i64, b: i64)
    requires
        a < b,
    ensures
        count_at_most(values, a) <= count_below(values, b),
    decreases values.len(),
{
    if values.len() > 0 {
        lemma_counts(values.drop_last(), a, b);
    }
}

/// Whether the values are in order.
spec fn ascending(values: Seq<i64>) -> bool {
    forall|i: int, j: int|
        0 <= i <= j < values.len() ==> #[trigger] values[i] <= #[trigger] values[j]
}

proof fn lemma_counts_insert(values: Seq<i64>, at: int, x: i64, v: i64)
    requires
        0 <= at <= values.len(),
    ensures
        count_below(values.insert(at, x), v) == count_below(values, v) + (if x < v {
            1int
        } else {
            0int
        }),
        count_at_most(values.insert(at, x), v) == count_at_most(values, v) + (if x <= v {
            1int
        } else {
            0int
        }),
    decreases values.len(),
{
    let more = values.insert(at, x);
    if at == values.len() {
        assert(more.drop_last() =~= values);
    } else {
        let rest = values.drop_last();
        assert(more.drop_last() =~= rest.insert(at, x));
        assert(more.last() == values.last());
        lemma_counts_insert(rest, at, x, v);
    }
}

/// In a list in order, the value at `k` has at most `k` values below it and
/// more than `k` that are no greater.
proof fn lemma_rank(values: Seq<i64>, k: int, v: i64)
    requires
        0 <= k < values.len(),
        forall|i: int| 0 <= i <= k ==> #[trigger] values[i] <= v,
        forall|i: int| k <= i < values.len() ==> #[trigger] values[i] >= v,
    ensures
        count_below(values, v) <= k,
        count_at_most(values, v) >= k + 1,
    decreases values.len(),
{
    let rest = values.drop_last();
    if k == values.len() - 1 {
        if k > 0 {
            lemma_rank_end(rest, v);
        } else {
            assert(values[0] == v);
        }
        lemma_count_bound(rest, v);
        assert(values[k] >= v);
    } else {
        lemma_rank(rest, k, v);
        assert(values[values.len() - 1] >= v);
    }
}

proof fn lemma_rank_end(values: Seq<i64>, v: i64)
    requires
        forall|i: int| 0 <= i < values.len() ==> #[trigger] values[i] <= v,
    ensures
        count_at_most(values, v) == values.len(),
    decreases values.len(),
{
    if values.len() > 0 {
        assert(values[values.len() - 1] <= v);
        lemma_rank_end(values.drop_last(), v);
    }
}

proof fn lemma_count_bound(values: Seq<i64>, v: i64)
    ensures
        count_below(values, v) <= values.len(),
    decreases values.len(),
{
    if values.len() > 0 {
        lemma_count_bound(values.drop_last(), v);
    }
}

/// Where a value goes in a list in order.
fn place_for(sorted: &Vec<i64>, x: i64) -> (k: usize)
    requires
        ascending(sorted@),
    ensures
        k <= sorted@.len(),
        forall|i: int| 0 <= i < k ==> #[trigger] sorted@[i] <= x,
        forall|i: int| k <= i < sorted@.len() ==> #[trigger] sorted@[i] > x,
{
    let mut lo: usize = 0;
    let mut hi: usize = sorted.len();
    while lo < hi
        invariant
            ascending(sorted@),
            lo <= hi <= sorted@.len(),
            forall|i: int| 0 <= i < lo ==> #[trigger] sorted@[i] <= x,
            forall|i: int| hi <= i < sorted@.len() ==> #[trigger] sorted@[i] > x,
        decreases hi - lo,
    {
        let mid: usize = lo + (hi - lo) / 2;
        if sorted[mid] <= x {
            lo = mid + 1;
        } else {
            hi = mid;
        }
    }
    lo
}

/// The median of the values from `from` up to `to`.
pub fn median(values: &[i64], from: usize, to: usize) -> (m: i64)
    requires
        from < to <= values@.len(),
    ensures
        is_median(values@.subrange(from as int, to as int), m),
{
    let ghost part = values@.subrange(from as int, to as int);
    let mut sorted: Vec<i64> = Vec::new();
    let mut i: usize = from;
    while i < to
        invariant
            from <= i <= to <= values@.len(),
            part == values@.subrange(from as int, to as int),
            ascending(sorted@),
            sorted@.len() == i - from,
            forall|k: int| 0 <= k < sorted@.len() ==> part.contains(#[trigger] sorted@[k]),
            forall|v: i64|
                count_below(sorted@, v) == count_below(part.take(i - from), v)
                    && count_at_most(sorted@, v) == count_at_most(part.take(i - from), v),
        decreases to - i,
    {
        let x: i64 = values[i];
        let ghost before = sorted@;
        let ghost next = part.take(i + 1 - from);
        assert(next.drop_last() =~= part.take(i - from));
        assert(next.last() == x);
        assert(part[i - from] == x);
        let at: usize = place_for(&sorted, x);
        sorted.insert(at, x);
        assert(sorted@ =~= before.insert(at as int, x));
        assert forall|v: i64|
            count_below(sorted@, v) == count_below(next, v) && count_at_most(sorted@, v)
                == count_at_most(next, v) by {
            lemma_counts_insert(before, at as int, x, v);
            assert(count_below(before, v) == count_below(part.take(i - from), v));
        }
        i = i + 1;
    }
    assert(part.take(to - from) =~= part);
    let k: usize = sorted.len() / 2;
    let m: i64 = sorted[k];
    proof {
        lemma_rank(sorted@, k as int, m);
        assert(count_below(sorted@, m) == count_below(part.take(to - from), m));
    }
    m
}

} // verus!
