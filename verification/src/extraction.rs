//! From the shifts of single lines to anchors: neighbouring lines that are
//! shifted by about the same make one anchor.

use crate::alignment::MAX_DELTA_MS;
use crate::anchor::Anchor;
use crate::binary64::Binary64;
use crate::engine::{anchors_in_range, half_of, halve, TIME_LIMIT_MS};
use crate::ids::{is_random_id, new_id, Id};
use crate::median::{is_median, median};
use vstd::prelude::*;

verus! {

/// Whether two shifts differ by at least the threshold.
pub open spec fn is_jump(a: i64, b: i64, threshold: int) -> bool {
    b - a >= threshold || a - b >= threshold
}

/// The groups of neighbours without a jump between them, as the indices from
/// which and up to which they go.
pub open spec fn groups(deltas: Seq<i64>, threshold: int) -> Seq<(int, int)>
    decreases deltas.len(),
{
    if deltas.len() == 0 {
        Seq::empty()
    } else {
        let n = deltas.len() as int;
        let earlier = groups(deltas.drop_last(), threshold);
        if n >= 2 && !is_jump(deltas[n - 2], deltas[n - 1], threshold) {
            earlier.drop_last().push((earlier.last().0, n))
        } else {
            earlier.push((n - 1, n))
        }
    }
}

/// Whether `v` is the least of the values.
pub open spec fn is_least(values: Seq<usize>, v: usize) -> bool {
    values.contains(v) && forall|i: int| 0 <= i < values.len() ==> v <= #[trigger] values[i]
}

/// Whether `v` is the greatest of the values.
pub open spec fn is_greatest(values: Seq<usize>, v: usize) -> bool {
    values.contains(v) && forall|i: int| 0 <= i < values.len() ==> v >= #[trigger] values[i]
}

/// Whether an anchor is that of the lines with the given indices and shifts:
/// it spans all of them, stands in the middle between the start of the first
/// and the end of the last, and has the median of their shifts. Which
/// identifier it has is left to chance.
pub open spec fn is_anchor_of(
    a: Anchor,
    lines: Seq<(i64, i64)>,
    indices: Seq<usize>,
    deltas: Seq<i64>,
    score: Binary64,
    chunk_id: Id,
) -> bool {
    &&& is_least(indices, a.line_start)
    &&& a.line_end > 0
    &&& is_greatest(indices, (a.line_end - 1) as usize)
    &&& is_median(deltas, a.delta_ms)
    &&& a.film_position_ms == half_of(lines[a.line_start as int].0 + lines[a.line_end - 1].1)
    &&& a.confidence == score
    &&& a.chunk_id == chunk_id
    &&& is_random_id(a.id)
}

/// The lesser of two lengths.
pub open spec fn common_len(a: nat, b: nat) -> int {
    if a <= b {
        a as int
    } else {
        b as int
    }
}

/// Whether the anchors are those of the groups, one for each, in order.
pub open spec fn are_anchors_of(
    anchors: Seq<Anchor>,
    groups: Seq<(int, int)>,
    lines: Seq<(i64, i64)>,
    indices: Seq<usize>,
    deltas: Seq<i64>,
    score: Binary64,
    chunk_id: Id,
) -> bool {
    &&& anchors.len() == groups.len()
    &&& forall|g: int|
        0 <= g < anchors.len() ==> is_anchor_of(
            #[trigger] anchors[g],
            lines,
            indices.subrange(groups[g].0, groups[g].1),
            deltas.subrange(groups[g].0, groups[g].1),
            score,
            chunk_id,
        )
}

/// Whether the anchors are those that the shifts of the lines with the given
/// indices make. If there are more shifts than indices, or fewer, the rest is
/// ignored.
pub open spec fn extracted(
    anchors: Seq<Anchor>,
    lines: Seq<(i64, i64)>,
    indices: Seq<usize>,
    deltas: Seq<i64>,
    threshold: int,
    score: Binary64,
    chunk_id: Id,
) -> bool {
    let n = common_len(deltas.len(), indices.len());
    are_anchors_of(
        anchors,
        groups(deltas.take(n), threshold),
        lines,
        indices,
        deltas,
        score,
        chunk_id,
    )
}

/// Whether there is a jump just before `i`.
pub open spec fn jump_at(deltas: Seq<i64>, i: int, threshold: int) -> bool {
    is_jump(deltas[i - 1], deltas[i], threshold)
}

/// Whether neighbours from `from` up to `to` all lie without a jump between
/// them.
pub open spec fn without_jump(deltas: Seq<i64>, from: int, to: int, threshold: int) -> bool {
    forall|i: int| from < i < to ==> !(#[trigger] jump_at(deltas, i, threshold))
}

/// Whether a group begins where the one before ends.
pub open spec fn adjoins(groups: Seq<(int, int)>, g: int) -> bool {
    groups[g].0 == groups[g - 1].1
}

/// The groups cut the shifts into pieces, none of them empty, without a gap
/// from the first to the last. There is no jump within a group, and there is
/// one wherever a new group begins.
#[verifier::spinoff_prover]
pub proof fn law_groups_are_parted_by_jumps(deltas: Seq<i64>, threshold: int)
    ensures
        ({
            let all = groups(deltas, threshold);
            &&& all.len() <= deltas.len()
            &&& deltas.len() > 0 ==> all.len() > 0 && all[0].0 == 0 && all.last().1 == deltas.len()
            &&& forall|g: int|
                0 <= g < all.len() ==> 0 <= (#[trigger] all[g]).0 < all[g].1 <= deltas.len()
                    && without_jump(deltas, all[g].0, all[g].1, threshold)
            &&& forall|g: int|
                0 < g < all.len() ==> #[trigger] adjoins(all, g) && jump_at(
                    deltas,
                    all[g].0,
                    threshold,
                )
        }),
    decreases deltas.len(),
{
    if deltas.len() > 0 {
        let n = deltas.len() as int;
        let rest = deltas.drop_last();
        let earlier = groups(rest, threshold);
        let all = groups(deltas, threshold);
        law_groups_are_parted_by_jumps(rest, threshold);
        assert(forall|i: int|
            0 < i < rest.len() ==> #[trigger] jump_at(deltas, i, threshold) == jump_at(
                rest,
                i,
                threshold,
            ));
        assert forall|g: int| 0 <= g < all.len() implies 0 <= (#[trigger] all[g]).0 < all[g].1
            <= deltas.len() && without_jump(deltas, all[g].0, all[g].1, threshold) by {
            if g < earlier.len() {
                assert(0 <= earlier[g].0 < earlier[g].1 <= rest.len());
                assert(without_jump(rest, earlier[g].0, earlier[g].1, threshold));
                assert forall|i: int| all[g].0 < i < all[g].1 implies !(#[trigger] jump_at(
                    deltas,
                    i,
                    threshold,
                )) by {
                    if i < earlier[g].1 {
                        assert(!jump_at(rest, i, threshold));
                    }
                }
            }
        }
        assert forall|g: int| 0 < g < all.len() implies #[trigger] adjoins(all, g) && jump_at(
            deltas,
            all[g].0,
            threshold,
        ) by {
            if g < earlier.len() {
                assert(adjoins(earlier, g));
                assert(0 <= earlier[g - 1].0 < earlier[g - 1].1);
                assert(0 <= earlier[g].0 < earlier[g].1 <= rest.len());
                assert(all[g].0 == earlier[g].0);
                assert(all[g - 1] == earlier[g - 1]);
                assert(jump_at(rest, earlier[g].0, threshold));
            }
        }
    }
}

/// The least and the greatest of the indices from `from` up to `to`.
fn index_bounds(indices: &[usize], from: usize, to: usize) -> (r: (usize, usize))
    requires
        from < to <= indices@.len(),
    ensures
        is_least(indices@.subrange(from as int, to as int), r.0),
        is_greatest(indices@.subrange(from as int, to as int), r.1),
{
    let ghost part = indices@.subrange(from as int, to as int);
    let mut least: usize = indices[from];
    let mut greatest: usize = indices[from];
    let mut i: usize = from + 1;
    assert(part[0] == least);
    while i < to
        invariant
            from < i <= to <= indices@.len(),
            part == indices@.subrange(from as int, to as int),
            part.contains(least),
            part.contains(greatest),
            forall|k: int| 0 <= k < i - from ==> least <= #[trigger] part[k],
            forall|k: int| 0 <= k < i - from ==> greatest >= #[trigger] part[k],
        decreases to - i,
    {
        let x: usize = indices[i];
        assert(part[i - from] == x);
        if x < least {
            least = x;
        }
        if x > greatest {
            greatest = x;
        }
        i = i + 1;
    }
    (least, greatest)
}

/// The anchor of the lines with the indices from `from` up to `to`.
fn make_anchor(
    lines: &Vec<(i64, i64)>,
    indices: &[usize],
    deltas: &[i64],
    from: usize,
    to: usize,
    score: Binary64,
    chunk_id: Id,
) -> (a: Anchor)
    requires
        from < to <= indices@.len(),
        to <= deltas@.len(),
        lines_in_limit(lines@),
        lines@.len() <= usize::MAX,
        forall|i: int| 0 <= i < indices@.len() ==> (#[trigger] indices@[i]) < lines@.len(),
    ensures
        is_anchor_of(
            a,
            lines@,
            indices@.subrange(from as int, to as int),
            deltas@.subrange(from as int, to as int),
            score,
            chunk_id,
        ),
        -TIME_LIMIT_MS <= a.film_position_ms <= TIME_LIMIT_MS,
{
    let (line_start, last): (usize, usize) = index_bounds(indices, from, to);
    proof {
        let part = indices@.subrange(from as int, to as int);
        let j = choose|j: int| 0 <= j < part.len() && part[j] == line_start;
        let k = choose|k: int| 0 <= k < part.len() && part[k] == last;
        assert(indices@[from + j] == line_start);
        assert(indices@[from + k] == last);
    }
    let delta_ms: i64 = median(deltas, from, to);
    let first_start: i64 = lines[line_start].0;
    let last_end: i64 = lines[last].1;
    assert(lines@[line_start as int].0 >= -TIME_LIMIT_MS);
    assert(lines@[last as int].1 <= TIME_LIMIT_MS);
    Anchor {
        id: new_id(),
        film_position_ms: halve(first_start + last_end),
        delta_ms,
        confidence: score,
        line_start,
        line_end: last + 1,
        chunk_id,
    }
}

/// Whether the times of all lines lie within the limits of the engine.
pub open spec fn lines_in_limit(lines: Seq<(i64, i64)>) -> bool {
    forall|i: int|
        0 <= i < lines.len() ==> {
            &&& -TIME_LIMIT_MS <= (#[trigger] lines[i]).0 <= TIME_LIMIT_MS
            &&& -TIME_LIMIT_MS <= lines[i].1 <= TIME_LIMIT_MS
        }
}

/// An anchor more, for the group after the last.
proof fn lemma_one_anchor_more(
    anchors: Seq<Anchor>,
    groups: Seq<(int, int)>,
    a: Anchor,
    group: (int, int),
    lines: Seq<(i64, i64)>,
    indices: Seq<usize>,
    deltas: Seq<i64>,
    score: Binary64,
    chunk_id: Id,
)
    requires
        are_anchors_of(anchors, groups, lines, indices, deltas, score, chunk_id),
        anchors_in_range(anchors),
        0 <= group.0 < group.1 <= deltas.len(),
        is_anchor_of(
            a,
            lines,
            indices.subrange(group.0, group.1),
            deltas.subrange(group.0, group.1),
            score,
            chunk_id,
        ),
        -TIME_LIMIT_MS <= a.film_position_ms <= TIME_LIMIT_MS,
        forall|i: int|
            0 <= i < deltas.len() ==> -MAX_DELTA_MS <= #[trigger] deltas[i] <= MAX_DELTA_MS,
    ensures
        are_anchors_of(
            anchors.push(a),
            groups.push(group),
            lines,
            indices,
            deltas,
            score,
            chunk_id,
        ),
        anchors_in_range(anchors.push(a)),
{
    lemma_median_bounds(deltas.subrange(group.0, group.1), a.delta_ms);
    let (all, every) = (anchors.push(a), groups.push(group));
    assert forall|g: int| 0 <= g < all.len() implies is_anchor_of(
        #[trigger] all[g],
        lines,
        indices.subrange(every[g].0, every[g].1),
        deltas.subrange(every[g].0, every[g].1),
        score,
        chunk_id,
    ) by {
        if g < anchors.len() {
            assert(all[g] == anchors[g] && every[g] == groups[g]);
        }
    }
}

/// Group deltas into anchor groups, emit anchors.
#[verifier::spinoff_prover]
pub fn extract(
    lines: &Vec<(i64, i64)>,
    indices: &[usize],
    deltas: &[i64],
    threshold: i64,
    score: Binary64,
    chunk_id: Id,
) -> (anchors: Vec<Anchor>)
    requires
        lines_in_limit(lines@),
        forall|i: int| 0 <= i < indices@.len() ==> (#[trigger] indices@[i]) < lines@.len(),
        forall|i: int|
            0 <= i < deltas@.len() ==> -MAX_DELTA_MS <= #[trigger] deltas@[i] <= MAX_DELTA_MS,
    ensures
        extracted(anchors@, lines@, indices@, deltas@, threshold as int, score, chunk_id),
        anchors_in_range(anchors@),
{
    let mut anchors: Vec<Anchor> = Vec::new();
    let n: usize = if deltas.len() <= indices.len() { deltas.len() } else { indices.len() };
    let line_count: usize = lines.len();
    if n == 0 {
        assert(deltas@.take(0).len() == 0);
        return anchors;
    }
    let ghost used = deltas@.take(n as int);
    let mut from: usize = 0;
    let mut i: usize = 1;
    let ghost mut closed: Seq<(int, int)> = Seq::empty();
    proof {
        let one = used.take(1);
        assert(groups(one.drop_last(), threshold as int) =~= closed);
        assert(groups(one, threshold as int) =~= closed.push((0, 1)));
    }
    while i < n
        invariant
            0 < i <= n,
            n <= indices@.len(),
            n <= deltas@.len(),
            used == deltas@.take(n as int),
            line_count == lines@.len(),
            lines_in_limit(lines@),
            forall|k: int| 0 <= k < indices@.len() ==> (#[trigger] indices@[k]) < lines@.len(),
            forall|k: int|
                0 <= k < deltas@.len() ==> -MAX_DELTA_MS <= #[trigger] deltas@[k] <= MAX_DELTA_MS,
            from < i,
            groups(used.take(i as int), threshold as int) == closed.push((from as int, i as int)),
            are_anchors_of(anchors@, closed, lines@, indices@, deltas@, score, chunk_id),
            anchors_in_range(anchors@),
        decreases n - i,
    {
        let delta_ms: i64 = deltas[i];
        let prev_delta: i64 = deltas[i - 1];
        let ghost seen = used.take(i as int);
        let ghost next = used.take(i + 1);
        assert(next.drop_last() =~= seen);
        assert(next[i - 1] == prev_delta && next[i as int] == delta_ms);
        assert(deltas@[i - 1] == prev_delta);
        let ghost earlier = groups(seen, threshold as int);
        assert(earlier.drop_last() =~= closed);
        if delta_ms - prev_delta >= threshold || prev_delta - delta_ms >= threshold {
            let a: Anchor = make_anchor(lines, indices, deltas, from, i, score, chunk_id);
            proof {
                let group = (from as int, i as int);
                lemma_one_anchor_more(
                    anchors@,
                    closed,
                    a,
                    group,
                    lines@,
                    indices@,
                    deltas@,
                    score,
                    chunk_id,
                );
                closed = closed.push(group);
            }
            anchors.push(a);
            from = i;
        }
        i = i + 1;
    }
    assert(used.take(n as int) =~= used);
    let a: Anchor = make_anchor(lines, indices, deltas, from, n, score, chunk_id);
    proof {
        lemma_one_anchor_more(
            anchors@,
            closed,
            a,
            (from as int, n as int),
            lines@,
            indices@,
            deltas@,
            score,
            chunk_id,
        );
    }
    anchors.push(a);
    anchors
}

/// The median of shifts within the limits is within the limits.
proof fn lemma_median_bounds(deltas: Seq<i64>, m: i64)
    requires
        is_median(deltas, m),
        forall|i: int|
            0 <= i < deltas.len() ==> -MAX_DELTA_MS <= #[trigger] deltas[i] <= MAX_DELTA_MS,
    ensures
        -MAX_DELTA_MS <= m <= MAX_DELTA_MS,
{
    let k = choose|k: int| 0 <= k < deltas.len() && deltas[k] == m;
    assert(deltas[k] == m);
}

} // verus!
