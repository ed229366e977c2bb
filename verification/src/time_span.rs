//! Spans of film time and the union of many of them.

use vstd::prelude::*;

verus! {

/// A span of film time in milliseconds, from `start` up to but without `end`.
#[derive(Clone, Copy, Debug, PartialEq, Eq, Structural)]
pub struct TimeSpan {
    pub start: i64,
    pub end: i64,
}

impl TimeSpan {
    /// The end does not lie before the start.
    pub open spec fn ordered(self) -> bool {
        self.start <= self.end
    }

    /// Whether the moment `t` lies in the span.
    pub open spec fn holds(self, t: int) -> bool {
        self.start <= t < self.end
    }

    /// Whether both ends lie within `limit` of time zero.
    pub open spec fn within(self, limit: int) -> bool {
        &&& -limit <= self.start <= limit
        &&& -limit <= self.end <= limit
    }

    /// The span from `start` to `end`.
    pub fn new(start: i64, end: i64) -> (r: Self)
        requires
            start <= end,
        ensures
            r.start == start,
            r.end == end,
            r.ordered(),
    {
        TimeSpan { start, end }
    }
}

/// Whether the moment `t` lies in one of the spans.
pub open spec fn covers(spans: Seq<TimeSpan>, t: int) -> bool {
    exists|i: int| 0 <= i < spans.len() && (#[trigger] spans[i]).holds(t)
}

/// Whether the spans are not empty, in order, and apart from each other.
pub open spec fn is_merged(spans: Seq<TimeSpan>) -> bool {
    &&& forall|i: int|
        0 <= i < spans.len() ==> (#[trigger] spans[i]).start < spans[i].end
    &&& forall|i: int, j: int|
        0 <= i < j < spans.len() ==> (#[trigger] spans[i]).end < (#[trigger] spans[j]).start
}

/// Whether the spans are in order of their starts.
spec fn by_start(spans: Seq<TimeSpan>) -> bool {
    forall|i: int, j: int|
        0 <= i <= j < spans.len() ==> (#[trigger] spans[i]).start <= (#[trigger] spans[j]).start
}

/// Where a span that starts at `start` goes in a list in order of starts.
fn insertion_point(sorted: &Vec<TimeSpan>, start: i64) -> (k: usize)
    requires
        by_start(sorted@),
    ensures
        k <= sorted.len(),
        forall|i: int| 0 <= i < k ==> (#[trigger] sorted[i]).start <= start,
        forall|i: int| k <= i < sorted.len() ==> (#[trigger] sorted[i]).start > start,
{
    let mut lo: usize = 0;
    let mut hi: usize = sorted.len();
    while lo < hi
        invariant
            by_start(sorted@),
            lo <= hi <= sorted.len(),
            forall|i: int| 0 <= i < lo ==> (#[trigger] sorted[i]).start <= start,
            forall|i: int| hi <= i < sorted.len() ==> (#[trigger] sorted[i]).start > start,
        decreases hi - lo,
    {
        let mid: usize = lo + (hi - lo) / 2;
        if sorted[mid].start <= start {
            lo = mid + 1;
        } else {
            hi = mid;
        }
    }
    lo
}

/// The spans that are not empty, in order of their starts.
fn sort_nonempty(spans: &Vec<TimeSpan>) -> (sorted: Vec<TimeSpan>)
    ensures
        by_start(sorted@),
        forall|i: int|
            0 <= i < sorted.len() ==> (#[trigger] sorted[i]).start < sorted[i].end
                && spans@.contains(sorted[i]),
        forall|t: int| covers(sorted@, t) <==> covers(spans@, t),
        sorted.len() <= spans.len(),
{
    let mut sorted: Vec<TimeSpan> = Vec::new();
    let mut k: usize = 0;
    while k < spans.len()
        invariant
            k <= spans.len(),
            by_start(sorted@),
            forall|i: int|
                0 <= i < sorted.len() ==> (#[trigger] sorted[i]).start < sorted[i].end
                    && spans@.contains(sorted[i]),
            forall|t: int| covers(sorted@, t) <==> covers(spans@.take(k as int), t),
            sorted.len() <= k,
        decreases spans.len() - k,
    {
        let s: TimeSpan = spans[k];
        let ghost before = sorted@;
        let ghost seen = spans@.take(k as int);
        let ghost next = spans@.take(k + 1);
        assert(next =~= seen.push(s));
        assert(spans@.contains(s)) by {
            assert(spans@[k as int] == s);
        }
        assert forall|t: int| covers(next, t) <==> covers(seen, t) || s.holds(t) by {
            lemma_covers_push(seen, s, t);
        }
        if s.end > s.start {
            let at: usize = insertion_point(&sorted, s.start);
            sorted.insert(at, s);
            assert forall|t: int| covers(sorted@, t) <==> covers(before, t) || s.holds(t) by {
                lemma_covers_insert(before, at as int, s, t);
            }
            assert(sorted@ =~= before.insert(at as int, s));
        }
        k = k + 1;
    }
    assert(spans@.take(k as int) =~= spans@);
    sorted
}

proof fn lemma_covers_push(spans: Seq<TimeSpan>, s: TimeSpan, t: int)
    ensures
        covers(spans.push(s), t) <==> covers(spans, t) || s.holds(t),
{
    let more = spans.push(s);
    if covers(spans, t) {
        let i = choose|i: int| 0 <= i < spans.len() && (#[trigger] spans[i]).holds(t);
        assert(more[i].holds(t));
    }
    if s.holds(t) {
        assert(more[spans.len() as int].holds(t));
    }
    if covers(more, t) {
        let i = choose|i: int| 0 <= i < more.len() && (#[trigger] more[i]).holds(t);
        if i < spans.len() {
            assert(spans[i].holds(t));
        }
    }
}

proof fn lemma_covers_insert(spans: Seq<TimeSpan>, at: int, s: TimeSpan, t: int)
    requires
        0 <= at <= spans.len(),
    ensures
        covers(spans.insert(at, s), t) <==> covers(spans, t) || s.holds(t),
{
    let more = spans.insert(at, s);
    if covers(spans, t) {
        let i = choose|i: int| 0 <= i < spans.len() && (#[trigger] spans[i]).holds(t);
        if i < at {
            assert(more[i].holds(t));
        } else {
            assert(more[i + 1].holds(t));
        }
    }
    if s.holds(t) {
        assert(more[at].holds(t));
    }
    if covers(more, t) {
        let i = choose|i: int| 0 <= i < more.len() && (#[trigger] more[i]).holds(t);
        if i < at {
            assert(spans[i].holds(t));
        } else if i > at {
            assert(spans[i - 1].holds(t));
        }
    }
}

/// Merge a set of spans into a sorted, non-overlapping, non-adjacent list.
/// Spans with zero length are dropped; touching spans (end == next.start)
/// are coalesced.
pub fn merge_spans(spans: Vec<TimeSpan>) -> (out: Vec<TimeSpan>)
    ensures
        is_merged(out@),
        forall|t: int| covers(out@, t) <==> covers(spans@, t),
        out.len() <= spans.len(),
{
    let sorted: Vec<TimeSpan> = sort_nonempty(&spans);
    let mut out: Vec<TimeSpan> = Vec::new();
    let mut k: usize = 0;
    while k < sorted.len()
        invariant
            k <= sorted.len(),
            by_start(sorted@),
            forall|i: int| 0 <= i < sorted.len() ==> (#[trigger] sorted[i]).start < sorted[i].end,
            is_merged(out@),
            out.len() <= k,
            out.len() > 0 ==> k > 0 && out[out.len() - 1].start <= sorted[k - 1].start,
            forall|t: int| covers(out@, t) <==> covers(sorted@.take(k as int), t),
        decreases sorted.len() - k,
    {
        let s: TimeSpan = sorted[k];
        let ghost before = out@;
        let ghost seen = sorted@.take(k as int);
        let ghost next = sorted@.take(k + 1);
        assert(next =~= seen.push(s));
        let n: usize = out.len();
        if n > 0 && s.start <= out[n - 1].end {
            let last: TimeSpan = out[n - 1];
            assert(last.start <= s.start);
            if s.end > last.end {
                let joined: TimeSpan = TimeSpan { start: last.start, end: s.end };
                out.set(n - 1, joined);
                assert forall|t: int| covers(out@, t) <==> covers(before, t) || s.holds(t) by {
                    lemma_covers_widened(before, joined, s, t);
                }
            } else {
                assert forall|t: int| covers(out@, t) <==> covers(before, t) || s.holds(t) by {
                    if s.holds(t) {
                        assert(before[n - 1].holds(t));
                    }
                }
            }
        } else {
            out.push(s);
            assert forall|t: int| covers(out@, t) <==> covers(before, t) || s.holds(t) by {
                lemma_covers_push(before, s, t);
            }
        }
        assert forall|t: int| covers(out@, t) <==> covers(next, t) by {
            lemma_covers_push(seen, s, t);
            assert(covers(before, t) <==> covers(seen, t));
            assert(covers(out@, t) <==> covers(before, t) || s.holds(t));
        }
        k = k + 1;
    }
    assert(sorted@.take(k as int) =~= sorted@);
    out
}

/// Widening the last span to take in a span that touches it.
proof fn lemma_covers_widened(spans: Seq<TimeSpan>, joined: TimeSpan, s: TimeSpan, t: int)
    requires
        spans.len() > 0,
        joined.start == spans.last().start,
        joined.end == s.end,
        spans.last().start <= s.start <= spans.last().end < s.end,
    ensures
        covers(spans.update(spans.len() - 1, joined), t) <==> covers(spans, t) || s.holds(t),
{
    let wide = spans.update(spans.len() - 1, joined);
    let n = spans.len() - 1;
    if covers(spans, t) {
        let i = choose|i: int| 0 <= i < spans.len() && (#[trigger] spans[i]).holds(t);
        assert(wide[i].holds(t));
    }
    if s.holds(t) {
        assert(wide[n].holds(t));
    }
    if covers(wide, t) {
        let i = choose|i: int| 0 <= i < wide.len() && (#[trigger] wide[i]).holds(t);
        if i < n {
            assert(spans[i].holds(t));
        } else if !s.holds(t) {
            assert(spans[n].holds(t));
        }
    }
}

/// Two merged lists that cover the same moments are the same list, so that
/// what `merge_spans` returns is determined by what its argument covers.
pub proof fn law_merged_list_is_unique(a: Seq<TimeSpan>, b: Seq<TimeSpan>)
    requires
        is_merged(a),
        is_merged(b),
        forall|t: int| covers(a, t) <==> covers(b, t),
    ensures
        a == b,
    decreases a.len(),
{
    if a.len() == 0 {
        if b.len() > 0 {
            assert(b[0].holds(b[0].start as int));
            assert(covers(b, b[0].start as int));
        }
        assert(a =~= b);
    } else {
        assert(a[0].holds(a[0].start as int));
        assert(covers(a, a[0].start as int));
        assert(b.len() > 0);
        assert(b[0].holds(b[0].start as int));
        assert(covers(b, b[0].start as int));
        lemma_first_bounds(a, b);
        lemma_first_bounds(b, a);
        assert(a[0] == b[0]);
        let c = a.drop_first();
        let d = b.drop_first();
        assert forall|t: int| covers(c, t) <==> covers(d, t) by {
            lemma_covers_rest(a, t);
            lemma_covers_rest(b, t);
        }
        law_merged_list_is_unique(c, d);
        assert(a =~= seq![a[0]] + c);
        assert(b =~= seq![b[0]] + d);
    }
}

/// The first span of `a` lies within the first span of `b`.
proof fn lemma_first_bounds(a: Seq<TimeSpan>, b: Seq<TimeSpan>)
    requires
        a.len() > 0,
        b.len() > 0,
        is_merged(a),
        is_merged(b),
        forall|t: int| covers(a, t) <==> covers(b, t),
    ensures
        b[0].start <= a[0].start,
        a[0].end <= b[0].end,
{
    let s = a[0].start as int;
    assert(a[0].holds(s));
    assert(covers(a, s));
    let i = choose|i: int| 0 <= i < b.len() && (#[trigger] b[i]).holds(s);
    assert(b[0].start <= b[i].start);
    if a[0].end > b[0].end {
        let e = b[0].end as int;
        let f = b[0].start as int;
        assert(b[0].holds(f));
        assert(covers(b, f));
        let j = choose|j: int| 0 <= j < a.len() && (#[trigger] a[j]).holds(f);
        assert(a[0].start <= a[j].start);
        assert(a[0].holds(e));
        assert(covers(a, e));
        let k = choose|k: int| 0 <= k < b.len() && (#[trigger] b[k]).holds(e);
        assert(k == 0 || b[0].end < b[k].start);
    }
}

/// What is covered past the first span.
proof fn lemma_covers_rest(a: Seq<TimeSpan>, t: int)
    requires
        a.len() > 0,
        is_merged(a),
    ensures
        covers(a.drop_first(), t) <==> covers(a, t) && !a[0].holds(t),
{
    let c = a.drop_first();
    if covers(c, t) {
        let i = choose|i: int| 0 <= i < c.len() && (#[trigger] c[i]).holds(t);
        assert(a[i + 1].holds(t));
        assert(a[0].end < a[i + 1].start);
    }
    if covers(a, t) && !a[0].holds(t) {
        let i = choose|i: int| 0 <= i < a.len() && (#[trigger] a[i]).holds(t);
        assert(c[i - 1].holds(t));
    }
}

/// Merging a merged list changes nothing.
pub proof fn law_merging_is_idempotent(spans: Seq<TimeSpan>, merged: Seq<TimeSpan>)
    requires
        is_merged(spans),
        is_merged(merged),
        forall|t: int| covers(merged, t) <==> covers(spans, t),
    ensures
        merged == spans,
{
    law_merged_list_is_unique(merged, spans);
}

} // verus!
