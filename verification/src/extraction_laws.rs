//! What anchors say of the lines that they come from.

use crate::anchor::Anchor;
use crate::binary64::Binary64;
use crate::extraction::{
    adjoins, common_len, extracted, groups, is_anchor_of, jump_at, law_groups_are_parted_by_jumps,
    without_jump,
};
use crate::ids::Id;
use crate::median::{count_at_most, count_below};
use vstd::prelude::*;

verus! {

/// Where the groups begin, and where the last one ends.
proof fn lemma_cuts(deltas: Seq<i64>, threshold: int) -> (cuts: Seq<int>)
    requires
        deltas.len() > 0,
    ensures
        ({
            let all = groups(deltas, threshold);
            let n = deltas.len() as int;
            &&& cuts.len() == all.len() + 1
            &&& cuts[0] == 0
            &&& cuts.last() == n
            &&& forall|g: int|
                0 <= g < all.len() ==> cuts[g] == (#[trigger] all[g]).0 && cuts[g + 1] == all[g].1
                    && 0 <= cuts[g] < cuts[g + 1] <= n
            &&& forall|i: int|
                0 < i < n ==> (#[trigger] cuts.contains(i) <==> {
                    ||| deltas[i] - deltas[i - 1] >= threshold
                    ||| deltas[i - 1] - deltas[i] >= threshold
                })
        }),
{
    let all = groups(deltas, threshold);
    let n = deltas.len() as int;
    law_groups_are_parted_by_jumps(deltas, threshold);
    let m = all.len() as int;
    let cuts = Seq::new(
        (m + 1) as nat,
        |g: int|
            if g < m {
                all[g].0
            } else {
                n
            },
    );
    assert forall|g: int| 0 <= g < m implies cuts[g] == (#[trigger] all[g]).0 && cuts[g + 1]
        == all[g].1 && 0 <= cuts[g] < cuts[g + 1] <= n by {
        if g + 1 < m {
            assert(adjoins(all, g + 1));
        }
    }
    assert forall|i: int| 0 < i < n implies (#[trigger] cuts.contains(i) <==> {
        ||| deltas[i] - deltas[i - 1] >= threshold
        ||| deltas[i - 1] - deltas[i] >= threshold
    }) by {
        if cuts.contains(i) {
            let g = choose|g: int| 0 <= g < cuts.len() && cuts[g] == i;
            assert(0 < g < m);
            assert(adjoins(all, g));
            assert(jump_at(deltas, all[g].0, threshold));
        } else {
            let g = lemma_group_of(all, n, i, m - 1);
            assert(all[g].0 != i) by {
                assert(cuts[g] == all[g].0);
            }
            assert(without_jump(deltas, all[g].0, all[g].1, threshold));
            assert(!jump_at(deltas, i, threshold));
        }
    }
    cuts
}

/// The group that an index lies in, if the groups up to `g` reach to it.
proof fn lemma_group_of(all: Seq<(int, int)>, n: int, i: int, g: int) -> (r: int)
    requires
        0 <= g < all.len(),
        all[0].0 == 0,
        0 <= i < all[g].1,
        forall|h: int| 0 < h < all.len() ==> #[trigger] adjoins(all, h),
    ensures
        0 <= r < all.len(),
        all[r].0 <= i < all[r].1,
    decreases g,
{
    if i >= all[g].0 {
        g
    } else {
        assert(adjoins(all, g));
        lemma_group_of(all, n, i, g - 1)
    }
}

/// Counting is picking out and taking the length.
proof fn lemma_counts_by_filter(values: Seq<i64>, v: i64)
    ensures
        count_below(values, v) == values.filter(|x: i64| x < v).len(),
        count_at_most(values, v) == values.filter(|x: i64| x <= v).len(),
    decreases values.len(),
{
    reveal(Seq::filter);
    if values.len() > 0 {
        lemma_counts_by_filter(values.drop_last(), v);
    }
}

/// Whether an anchor covers the lines with the given indices, from the least
/// to the greatest.
pub open spec fn covers_run(a: Anchor, indices: Seq<usize>) -> bool {
    &&& indices.contains(a.line_start)
    &&& a.line_end > 0
    &&& indices.contains((a.line_end - 1) as usize)
    &&& forall|i: int|
        0 <= i < indices.len() ==> a.line_start <= #[trigger] indices[i] < a.line_end
}

/// Whether an anchor has one of the given shifts, with at most half of them
/// less and less than half of them greater.
pub open spec fn shifts_as_run(a: Anchor, run: Seq<i64>) -> bool {
    &&& run.contains(a.delta_ms)
    &&& 2 * run.filter(|x: i64| x < a.delta_ms).len() <= run.len()
    &&& 2 * run.filter(|x: i64| x <= a.delta_ms).len() > run.len()
}

/// Whether an anchor stands halfway between the start of its first line and
/// the end of its last, half a millisecond at most toward zero.
pub open spec fn stands_halfway(a: Anchor, lines: Seq<(i64, i64)>) -> bool {
    let ends = lines[a.line_start as int].0 + lines[a.line_end - 1].1;
    &&& ends >= 0 ==> 0 <= ends - 2 * a.film_position_ms <= 1
    &&& ends <= 0 ==> 0 <= 2 * a.film_position_ms - ends <= 1
}

/// Whether an anchor stands for a run of lines with the given indices and
/// shifts.
pub open spec fn stands_for_run(
    a: Anchor,
    lines: Seq<(i64, i64)>,
    indices: Seq<usize>,
    run: Seq<i64>,
    score: Binary64,
    chunk_id: Id,
) -> bool {
    &&& covers_run(a, indices)
    &&& shifts_as_run(a, run)
    &&& stands_halfway(a, lines)
    &&& a.confidence == score
    &&& a.chunk_id == chunk_id
}

/// Whether an anchor stands for the lines from one cut up to the next.
pub open spec fn stands_for_run_at(
    a: Anchor,
    cuts: Seq<int>,
    g: int,
    lines: Seq<(i64, i64)>,
    indices: Seq<usize>,
    deltas: Seq<i64>,
    score: Binary64,
    chunk_id: Id,
) -> bool {
    &&& 0 <= cuts[g] < cuts[g + 1] <= cuts.last()
    &&& stands_for_run(
        a,
        lines,
        indices.subrange(cuts[g], cuts[g + 1]),
        deltas.subrange(cuts[g], cuts[g + 1]),
        score,
        chunk_id,
    )
}

/// Whether the inner cuts are exactly where the shift of a line differs from
/// that of the line before it by at least the threshold.
pub open spec fn cut_at_jumps(cuts: Seq<int>, deltas: Seq<i64>, threshold: int) -> bool {
    forall|i: int|
        0 < i < cuts.last() ==> (#[trigger] cuts.contains(i) <==> {
            ||| deltas[i] - deltas[i - 1] >= threshold
            ||| deltas[i - 1] - deltas[i] >= threshold
        })
}

/// The anchors cut the lines into runs, one anchor for each in turn. A new run
/// begins exactly where the shift of a line differs from that of the line
/// before it, in either direction, by at least the threshold. An anchor covers
/// the lines of its run from the least index to the greatest. It has a shift
/// of one of them: at most half of the shifts are less, and less than half of
/// them are greater. It stands halfway between the start of the first line
/// and the end of the last, cut off toward zero, and has the score of the
/// alignment.
pub proof fn law_anchors_stand_for_runs(
    anchors: Seq<Anchor>,
    lines: Seq<(i64, i64)>,
    indices: Seq<usize>,
    deltas: Seq<i64>,
    threshold: int,
    score: Binary64,
    chunk_id: Id,
) -> (cuts: Seq<int>)
    requires
        extracted(anchors, lines, indices, deltas, threshold, score, chunk_id),
    ensures
        deltas.len() == 0 || indices.len() == 0 ==> anchors.len() == 0,
        deltas.len() > 0 && indices.len() > 0 ==> {
            &&& cuts.len() == anchors.len() + 1
            &&& cuts[0] == 0
            &&& cuts.last() <= deltas.len() && cuts.last() <= indices.len()
            &&& cuts.last() == deltas.len() || cuts.last() == indices.len()
            &&& cut_at_jumps(cuts, deltas, threshold)
            &&& forall|g: int|
                0 <= g < anchors.len() ==> #[trigger] stands_for_run_at(
                    anchors[g],
                    cuts,
                    g,
                    lines,
                    indices,
                    deltas,
                    score,
                    chunk_id,
                )
        },
{
    let n = common_len(deltas.len(), indices.len());
    let part = deltas.take(n);
    let all = groups(part, threshold);
    law_groups_are_parted_by_jumps(part, threshold);
    let cuts = if n == 0 {
        Seq::empty()
    } else {
        lemma_cuts(part, threshold)
    };
    if n > 0 {
        assert(cut_at_jumps(cuts, deltas, threshold)) by {
            assert forall|i: int| 0 < i < cuts.last() implies (#[trigger] cuts.contains(i) <==> {
                ||| deltas[i] - deltas[i - 1] >= threshold
                ||| deltas[i - 1] - deltas[i] >= threshold
            }) by {
                assert(part[i] == deltas[i] && part[i - 1] == deltas[i - 1]);
            }
        }
        assert forall|g: int| 0 <= g < anchors.len() implies #[trigger] stands_for_run_at(
            anchors[g],
            cuts,
            g,
            lines,
            indices,
            deltas,
            score,
            chunk_id,
        ) by {
            let a = anchors[g];
            let run = deltas.subrange(cuts[g], cuts[g + 1]);
            assert(cuts[g] == all[g].0 && cuts[g + 1] == all[g].1);
            assert(is_anchor_of(
                a,
                lines,
                indices.subrange(cuts[g], cuts[g + 1]),
                run,
                score,
                chunk_id,
            ));
            lemma_counts_by_filter(run, a.delta_ms);
        }
        assert(cuts.len() == anchors.len() + 1);
        assert(cuts[0] == 0);
        assert(cuts.last() == n);
    }
    cuts
}

} // verus!
