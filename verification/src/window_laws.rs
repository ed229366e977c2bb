//! Which lines a stretch of the film concerns, and what a sweep finds.

use crate::alignment::nosplit_score;
use crate::binary64::Binary64;
use crate::config::EngineConfig;
use crate::engine::{
    best_shift, lemma_window_indices, shifted_spans, spans_at, swept, sweep_reach, sweep_step,
    window_indices,
};
use crate::ingest::{coarse_shift, lines_concerned};
use crate::time_span::TimeSpan;
use vstd::arithmetic::div_mod::{lemma_fundamental_div_mod, lemma_mod_bound};
use vstd::arithmetic::mul::{
    lemma_mul_inequality, lemma_mul_is_commutative, lemma_mul_is_distributive_add_other_way,
    lemma_mul_unary_negation,
};
use vstd::prelude::*;

verus! {

// ---------------------------------------------------------------------------
// Windows
// ---------------------------------------------------------------------------

/// Whether the indices are, in order and each once, those of the lines that
/// end at `lo` or later and start at `hi` or earlier.
pub open spec fn lists_lines_within(
    indices: Seq<usize>,
    lines: Seq<(i64, i64)>,
    lo: int,
    hi: int,
) -> bool {
    &&& forall|i: int, j: int|
        0 <= i < j < indices.len() ==> #[trigger] indices[i] < #[trigger] indices[j]
    &&& forall|i: int| 0 <= i < indices.len() ==> #[trigger] indices[i] < lines.len()
    &&& forall|k: usize|
        k < lines.len() ==> (#[trigger] indices.contains(k) <==> lines[k as int].1 >= lo
            && lines[k as int].0 <= hi)
}

/// The lines in a window are, in order, those that end no earlier than it
/// begins and start no later than it ends.
pub proof fn law_window_holds_lines_within(lines: Seq<(i64, i64)>, lo: int, hi: int)
    requires
        lines.len() <= usize::MAX,
    ensures
        lists_lines_within(
            window_indices(lines, lo, hi, lines.len() as int),
            lines,
            lo,
            hi,
        ),
{
    lemma_window(lines, lo, hi, lines.len() as int);
    lemma_window_indices(lines, lo, hi, lines.len() as int);
    let indices = window_indices(lines, lo, hi, lines.len() as int);
    assert forall|k: usize| k < lines.len() implies (#[trigger] indices.contains(k)
        <==> lines[k as int].1 >= lo && lines[k as int].0 <= hi) by {}
}

/// The window of the first `n` lines.
proof fn lemma_window(lines: Seq<(i64, i64)>, lo: int, hi: int, n: int)
    requires
        0 <= n <= lines.len(),
        lines.len() <= usize::MAX,
    ensures
        ({
            let indices = window_indices(lines, lo, hi, n);
            &&& forall|i: int, j: int|
                0 <= i < j < indices.len() ==> #[trigger] indices[i] < #[trigger] indices[j]
            &&& forall|k: usize|
                k < n ==> (#[trigger] indices.contains(k) <==> lines[k as int].1 >= lo
                    && lines[k as int].0 <= hi)
        }),
    decreases n,
{
    if n > 0 {
        lemma_window(lines, lo, hi, n - 1);
        lemma_window_indices(lines, lo, hi, n - 1);
        let earlier = window_indices(lines, lo, hi, n - 1);
        let indices = window_indices(lines, lo, hi, n);
        assert forall|k: usize| k < n implies (#[trigger] indices.contains(k)
            <==> lines[k as int].1 >= lo && lines[k as int].0 <= hi) by {
            if earlier.contains(k) {
                let i = choose|i: int| 0 <= i < earlier.len() && earlier[i] == k;
                assert(indices[i] == k);
            }
            if indices.contains(k) {
                let i = choose|i: int| 0 <= i < indices.len() && indices[i] == k;
                if i < earlier.len() {
                    assert(earlier[i] == k);
                }
            }
            if k == n - 1 && indices.len() == earlier.len() + 1 {
                assert(indices[earlier.len() as int] == k);
            }
        }
    }
}

/// Two lists of the same lines, both in order, are the same.
proof fn lemma_same_list(
    a: Seq<usize>,
    b: Seq<usize>,
    lines: Seq<(i64, i64)>,
    lo: int,
    hi: int,
)
    requires
        lists_lines_within(a, lines, lo, hi),
        lists_lines_within(b, lines, lo, hi),
    ensures
        a == b,
{
    assert forall|k: usize| #[trigger] a.contains(k) <==> b.contains(k) by {
        if a.contains(k) {
            let i = choose|i: int| 0 <= i < a.len() && a[i] == k;
            assert(a[i] < lines.len());
            assert(b.contains(k));
        }
        if b.contains(k) {
            let i = choose|i: int| 0 <= i < b.len() && b[i] == k;
            assert(b[i] < lines.len());
            assert(a.contains(k));
        }
    }
    lemma_same_elements(a, b);
}

/// Two lists in order with the same elements are the same.
proof fn lemma_same_elements(a: Seq<usize>, b: Seq<usize>)
    requires
        forall|i: int, j: int| 0 <= i < j < a.len() ==> #[trigger] a[i] < #[trigger] a[j],
        forall|i: int, j: int| 0 <= i < j < b.len() ==> #[trigger] b[i] < #[trigger] b[j],
        forall|k: usize| #[trigger] a.contains(k) <==> b.contains(k),
    ensures
        a == b,
    decreases a.len(),
{
    if a.len() == 0 {
        if b.len() > 0 {
            assert(b.contains(b[0]));
            assert(a.contains(b[0]));
        }
        assert(a =~= b);
    } else {
        assert(a.contains(a.last()));
        let j = choose|j: int| 0 <= j < b.len() && b[j] == a.last();
        assert(b.contains(b.last()));
        assert(a.contains(b.last()));
        let i = choose|i: int| 0 <= i < a.len() && a[i] == b.last();
        assert(a.last() == b.last());
        let (c, d) = (a.drop_last(), b.drop_last());
        assert forall|k: usize| #[trigger] c.contains(k) <==> d.contains(k) by {
            if c.contains(k) {
                let m = choose|m: int| 0 <= m < c.len() && c[m] == k;
                assert(a[m] == k);
                assert(a.contains(k));
                let p = choose|p: int| 0 <= p < b.len() && b[p] == k;
                assert(d[p] == k);
            }
            if d.contains(k) {
                let m = choose|m: int| 0 <= m < d.len() && d[m] == k;
                assert(b[m] == k);
                assert(b.contains(k));
                assert(a.contains(k));
                let p = choose|p: int| 0 <= p < a.len() && a[p] == k;
                assert(c[p] == k);
            }
        }
        lemma_same_elements(c, d);
        assert(a =~= c.push(a.last()));
        assert(b =~= d.push(b.last()));
    }
}

/// Whether the spans are, in the same order, those of the lines with the given
/// indices.
pub open spec fn are_spans_of(
    spans: Seq<TimeSpan>,
    lines: Seq<(i64, i64)>,
    indices: Seq<usize>,
) -> bool {
    &&& spans.len() == indices.len()
    &&& forall|i: int|
        0 <= i < spans.len() ==> (#[trigger] spans[i]).start == lines[indices[i] as int].0
            && spans[i].end == lines[indices[i] as int].1
}

/// The lines that a stretch concerns are those within the largest drift and
/// the buffer of it, on both sides, once the coarse shift is added to it.
pub proof fn law_lines_concerned_are_near(
    config: EngineConfig,
    lines: Seq<(i64, i64)>,
    start: int,
    end: int,
    shift: int,
    indices: Seq<usize>,
)
    requires
        lines.len() <= usize::MAX,
        lists_lines_within(
            indices,
            lines,
            start + shift - config.max_drift_ms - config.coverage_buffer_ms,
            end + shift + config.max_drift_ms + config.coverage_buffer_ms,
        ),
    ensures
        lines_concerned(config, lines, start, end, shift) == indices,
{
    let lo = start + shift - config.max_drift_ms - config.coverage_buffer_ms;
    let hi = end + shift + config.max_drift_ms + config.coverage_buffer_ms;
    law_window_holds_lines_within(lines, lo, hi);
    lemma_same_list(lines_concerned(config, lines, start, end, shift), indices, lines, lo, hi);
}

/// The coarse shift is what a sweep finds with the lines within twice the
/// largest drift of the stretch, on both sides, and zero where there are none.
pub proof fn law_coarse_shift_is_swept_around(
    config: EngineConfig,
    lines: Seq<(i64, i64)>,
    speech: Seq<TimeSpan>,
    start: int,
    end: int,
    indices: Seq<usize>,
    spans: Seq<TimeSpan>,
)
    requires
        lines.len() <= usize::MAX,
        lists_lines_within(
            indices,
            lines,
            start - 2 * config.max_drift_ms,
            end + 2 * config.max_drift_ms,
        ),
        are_spans_of(spans, lines, indices),
    ensures
        indices.len() == 0 ==> coarse_shift(config, lines, speech, start, end) == 0,
        indices.len() > 0 ==> coarse_shift(config, lines, speech, start, end) == swept(
            config,
            speech,
            spans,
        ).0,
{
    let lo = start - 2 * config.max_drift_ms;
    let hi = end + 2 * config.max_drift_ms;
    let found = window_indices(lines, lo, hi, lines.len() as int);
    law_window_holds_lines_within(lines, lo, hi);
    lemma_same_list(found, indices, lines, lo, hi);
    lemma_spans_at(lines, indices, spans);
}

/// The spans of lines are told by their starts and ends.
pub(crate) proof fn lemma_spans_at(
    lines: Seq<(i64, i64)>,
    indices: Seq<usize>,
    spans: Seq<TimeSpan>,
)
    requires
        are_spans_of(spans, lines, indices),
    ensures
        spans_at(lines, indices) == spans,
{
    assert(spans_at(lines, indices) =~= spans);
}

// ---------------------------------------------------------------------------
// The sweep
// ---------------------------------------------------------------------------

/// Whether spans are others moved by `shift`.
pub open spec fn are_moved(moved: Seq<TimeSpan>, spans: Seq<TimeSpan>, shift: int) -> bool {
    &&& moved.len() == spans.len()
    &&& forall|i: int|
        0 <= i < spans.len() ==> (#[trigger] moved[i]).start == spans[i].start + shift
            && moved[i].end == spans[i].end + shift
}

/// How the best of the first `n` shifts compares with the one with index `m`.
proof fn lemma_best(
    reference: Seq<TimeSpan>,
    list: Seq<TimeSpan>,
    step: int,
    reach: int,
    n: int,
    m: int,
) -> (b: int)
    requires
        step > 0,
        i64::MIN <= -reach * step,
        (n - 1 - reach) * step <= i64::MAX,
    ensures
        ({
            let best = best_shift(reference, list, step, reach, n);
            let score = nosplit_score(reference, shifted_spans(list, (m - reach) * step));
            &&& 0 <= m < n ==> !best.1.lt(score)
            &&& -1 <= b && (b < n || n < 0)
            &&& b == -1 ==> best == (0i64, Binary64 { bits: 0xfff0_0000_0000_0000 })
            &&& b >= 0 ==> {
                &&& best.0 == (b - reach) * step
                &&& best.1 == nosplit_score(
                    reference,
                    shifted_spans(list, (b - reach) * step),
                )
                &&& !best.1.is_nan()
                &&& 0 <= m < b ==> score.is_nan() || score.lt(best.1)
            }
            &&& !best.1.is_nan()
        }),
    decreases (if n > 0 { n } else { 0 }),
{
    if n <= 0 {
        -1
    } else {
        lemma_mul_inequality(n - 2 - reach, n - 1 - reach, step);
        let b = lemma_best(reference, list, step, reach, n - 1, m);
        let best = best_shift(reference, list, step, reach, n - 1);
        let delta = (n - 1 - reach) * step;
        let score = nosplit_score(reference, shifted_spans(list, delta));
        lemma_mul_inequality(-reach, n - 1 - reach, step);
        if best.1.lt(score) {
            n - 1
        } else {
            b
        }
    }
}

/// A sweep tries every multiple of the step within the largest drift, in both
/// directions. What it finds is one of these, with the score that the list
/// has when it is moved by so much; none of the others has a higher score, and
/// none that is less has the same. If no score is above minus infinity, or no
/// shift is tried, it finds no shift.
pub proof fn law_sweep_finds_the_best(
    config: EngineConfig,
    reference: Seq<TimeSpan>,
    list: Seq<TimeSpan>,
    shift: int,
    multiple: int,
    moved: Seq<TimeSpan>,
    found: Seq<TimeSpan>,
)
    requires
        config.sweep_step_ms < 1 ==> shift == multiple,
        config.sweep_step_ms >= 1 ==> shift == multiple * config.sweep_step_ms,
        -config.max_drift_ms <= shift <= config.max_drift_ms,
        are_moved(moved, list, shift),
        are_moved(found, list, swept(config, reference, list).0 as int),
    ensures
        ({
            let (best, score) = swept(config, reference, list);
            let other = nosplit_score(reference, moved);
            &&& !score.lt(other)
            &&& -config.max_drift_ms <= best <= config.max_drift_ms
            &&& config.sweep_step_ms >= 1 ==> best as int % config.sweep_step_ms as int == 0
            &&& score == nosplit_score(reference, found) || {
                &&& best == 0
                &&& score == Binary64 { bits: 0xfff0_0000_0000_0000 }
            }
            &&& score != (Binary64 { bits: 0xfff0_0000_0000_0000 }) && shift < best
                ==> other.is_nan() || other.lt(score)
        }),
{
    let step = sweep_step(config);
    let reach = sweep_reach(config);
    let drift = config.max_drift_ms as int;
    let n = 2 * reach + 1;
    lemma_fundamental_div_mod(drift, step);
    lemma_mod_bound(drift, step);
    lemma_mul_is_commutative(step, reach);
    assert(reach * step <= drift);
    lemma_mul_unary_negation(reach, step);
    assert(n - 1 - reach == reach);
    let m = multiple + reach;
    assert((m - reach) * step == shift);
    assert(0 <= m < n) by {
        if multiple > reach {
            lemma_mul_inequality(reach + 1, multiple, step);
            lemma_mul_is_distributive_add_other_way(step, reach, 1);
        }
        if multiple < -reach {
            lemma_mul_inequality(multiple, -reach - 1, step);
            lemma_mul_is_distributive_add_other_way(step, -reach, -1);
        }
    }
    let b = lemma_best(reference, list, step, reach, n, m);
    let (best, score) = swept(config, reference, list);
    assert(shifted_spans(list, shift) =~= moved);
    if b >= 0 {
        assert(shifted_spans(list, best as int) =~= found);
        lemma_mul_inequality(b - reach, reach, step);
        lemma_mul_inequality(-reach, b - reach, step);
        vstd::arithmetic::div_mod::lemma_mod_multiples_basic(b - reach, step);
        if shift < best && m >= b {
            lemma_mul_inequality(b - reach, m - reach, step);
        }
    }
}

/// Where the largest drift is negative, the sweep finds no shift.
pub proof fn law_no_drift_no_shift(
    config: EngineConfig,
    reference: Seq<TimeSpan>,
    list: Seq<TimeSpan>,
)
    requires
        config.max_drift_ms < 0,
    ensures
        swept(config, reference, list).0 == 0,
{
    let (step, reach) = (sweep_step(config), sweep_reach(config));
    lemma_fundamental_div_mod(-config.max_drift_ms as int, step);
    vstd::arithmetic::div_mod::lemma_div_pos_is_pos(-config.max_drift_ms as int, step);
    assert(reach <= 0);
    if reach == 0 {
        vstd::arithmetic::mul::lemma_mul_basics(step);
        assert((1 - 1 - reach) * step == 0);
        assert(best_shift(reference, list, step, reach, 0).0 == 0);
    }
}

} // verus!
