//! Stitching: a new chunk of audio swallows the chunks that it touches, and
//! theirs in turn, until it stands alone.

use crate::anchor::{in_order, Anchor};
use crate::engine::{anchors_in_range, ProcessedChunk, TIME_LIMIT_MS};
use crate::ids::Id;
use std::collections::HashSet;
use vstd::prelude::*;

verus! {

broadcast use vstd::std_specs::hash::group_hash_axioms;

/// The anchors whose identifiers are not among the given ones.
pub open spec fn without(anchors: Seq<Anchor>, ids: Set<Id>) -> Seq<Anchor>
    decreases anchors.len(),
{
    if anchors.len() == 0 {
        Seq::empty()
    } else if ids.contains(anchors.last().id) {
        without(anchors.drop_last(), ids)
    } else {
        without(anchors.drop_last(), ids).push(anchors.last())
    }
}

/// Taking anchors away leaves the others in order and within limits, and
/// none of those taken away.
pub proof fn lemma_without(anchors: Seq<Anchor>, ids: Set<Id>)
    ensures
        without(anchors, ids).len() <= anchors.len(),
        forall|i: int|
            0 <= i < without(anchors, ids).len() ==> !ids.contains(
                (#[trigger] without(anchors, ids)[i]).id,
            ) && anchors.contains(without(anchors, ids)[i]),
        in_order(anchors) ==> in_order(without(anchors, ids)),
        anchors_in_range(anchors) ==> anchors_in_range(without(anchors, ids)),
    decreases anchors.len(),
{
    if anchors.len() > 0 {
        let rest = anchors.drop_last();
        let fewer = without(rest, ids);
        lemma_without(rest, ids);
        let all = without(anchors, ids);
        assert forall|i: int| 0 <= i < all.len() implies !ids.contains((#[trigger] all[i]).id)
            && anchors.contains(all[i]) by {
            if i < fewer.len() {
                assert(all[i] == fewer[i]);
                let k = choose|k: int| 0 <= k < rest.len() && rest[k] == fewer[i];
                assert(anchors[k] == all[i]);
            } else {
                assert(anchors[anchors.len() - 1] == all[i]);
            }
        }
        if in_order(anchors) {
            assert(in_order(rest));
            assert forall|i: int, j: int| 0 <= i <= j < all.len() implies (
            #[trigger] all[i]).film_position_ms <= (#[trigger] all[j]).film_position_ms by {
                if j < fewer.len() {
                    assert(fewer[i].film_position_ms <= fewer[j].film_position_ms);
                } else if i < fewer.len() {
                    assert(rest.contains(fewer[i]));
                    let k = choose|k: int| 0 <= k < rest.len() && rest[k] == fewer[i];
                    assert(anchors[k].film_position_ms <= anchors[anchors.len()
                        - 1].film_position_ms);
                }
            }
        }
        if anchors_in_range(anchors) {
            assert(anchors_in_range(rest));
        }
    }
}

/// The anchors whose identifiers are not among the given ones.
pub fn keep_others(anchors: &Vec<Anchor>, ids: &HashSet<Id>) -> (kept: Vec<Anchor>)
    ensures
        kept@ == without(anchors@, ids@),
{
    let mut kept: Vec<Anchor> = Vec::new();
    let mut i: usize = 0;
    while i < anchors.len()
        invariant
            i <= anchors@.len(),
            kept@ == without(anchors@.take(i as int), ids@),
        decreases anchors@.len() - i,
    {
        let a: Anchor = anchors[i];
        let ghost next = anchors@.take(i + 1);
        assert(next.drop_last() =~= anchors@.take(i as int));
        assert(next.last() == a);
        if !ids.contains(&a.id) {
            kept.push(a);
        }
        i = i + 1;
    }
    assert(anchors@.take(i as int) =~= anchors@);
    kept
}

/// The set of the given identifiers.
fn id_set(ids: &Vec<Id>) -> (set: HashSet<Id>)
    ensures
        set@ == ids@.to_set(),
{
    let mut set: HashSet<Id> = HashSet::new();
    let mut i: usize = 0;
    while i < ids.len()
        invariant
            i <= ids@.len(),
            forall|id: Id| set@.contains(id) <==> ids@.take(i as int).contains(id),
        decreases ids@.len() - i,
    {
        let id: Id = ids[i];
        let ghost next = ids@.take(i + 1);
        let ghost seen = ids@.take(i as int);
        set.insert(id);
        assert forall|x: Id| set@.contains(x) <==> next.contains(x) by {
            if seen.contains(x) {
                let k = choose|k: int| 0 <= k < seen.len() && seen[k] == x;
                assert(next[k] == x);
            }
            if x == id {
                assert(next[i as int] == x);
            }
            if next.contains(x) {
                let k = choose|k: int| 0 <= k < next.len() && next[k] == x;
                if k < i {
                    assert(seen[k] == x);
                }
            }
        }
        i = i + 1;
    }
    assert(ids@.take(i as int) =~= ids@);
    assert(set@ =~= ids@.to_set());
    set
}

// ---------------------------------------------------------------------------
// Stitching
// ---------------------------------------------------------------------------

/// The audio at hand, where it starts and ends, the chunks and anchors that
/// remain, and which anchors had to go.
pub struct Stitching {
    pub pcm: Seq<u8>,
    pub start: i64,
    pub end: i64,
    pub chunks: Seq<ProcessedChunk>,
    pub anchors: Seq<Anchor>,
    pub evicted: bool,
}

/// Whether `a` and `b` differ by at most `tolerance`.
pub open spec fn is_close(a: int, b: int, tolerance: int) -> bool {
    -tolerance <= a - b <= tolerance
}

/// Whether a chunk is of the same sample rate as the stretch from `start` to
/// `end` and follows it, precedes it or overlaps it.
pub open spec fn touches(
    c: ProcessedChunk,
    start: int,
    end: int,
    sample_rate: i32,
    tolerance: int,
) -> bool {
    &&& c.sample_rate == sample_rate
    &&& {
        ||| is_close(c.film_end_ms as int, start, tolerance)
        ||| is_close(end, c.film_start_ms as int, tolerance)
        ||| c.film_start_ms < end && c.film_end_ms > start
    }
}

/// The index of the first chunk, from `i` on, that touches the stretch; the
/// number of chunks if there is none.
pub open spec fn first_touching(
    chunks: Seq<ProcessedChunk>,
    start: int,
    end: int,
    sample_rate: i32,
    tolerance: int,
    i: int,
) -> int
    decreases chunks.len() - i,
{
    if i >= chunks.len() {
        chunks.len() as int
    } else if touches(chunks[i], start, end, sample_rate, tolerance) {
        i
    } else {
        first_touching(chunks, start, end, sample_rate, tolerance, i + 1)
    }
}

/// The silence that fills a gap: as many bytes as samples of two bytes fit,
/// none for no gap.
pub open spec fn silence(gap_ms: int, sample_rate: i32) -> Seq<u8> {
    let gap: int = if gap_ms < 0 {
        0
    } else {
        gap_ms
    };
    Seq::new((2 * (gap * sample_rate / 1000)) as nat, |i: int| 0u8)
}

impl Stitching {
    /// One chunk swallowed: its anchors go, and its audio is joined on in the
    /// order of time, with silence in between.
    pub open spec fn swallow(self, i: int, sample_rate: i32) -> Self {
        let c = self.chunks[i];
        let chunks = self.chunks.remove(i);
        let anchors = without(self.anchors, c.anchor_ids@.to_set());
        let evicted = self.evicted || c.anchor_ids@.len() > 0;
        if c.film_start_ms <= self.start {
            Stitching {
                pcm: c.pcm_data@ + silence(self.start - c.film_end_ms, sample_rate) + self.pcm,
                start: c.film_start_ms,
                end: self.end,
                chunks,
                anchors,
                evicted,
            }
        } else {
            Stitching {
                pcm: self.pcm + silence(c.film_start_ms - self.end, sample_rate) + c.pcm_data@,
                start: self.start,
                end: c.film_end_ms,
                chunks,
                anchors,
                evicted,
            }
        }
    }

    /// The first chunk that touches the stretch.
    pub open spec fn next(self, sample_rate: i32, tolerance: int) -> int {
        first_touching(
            self.chunks,
            self.start as int,
            self.end as int,
            sample_rate,
            tolerance,
            0,
        )
    }

    /// All chunks swallowed, one after the other, until none touches the
    /// stretch that has come together.
    pub open spec fn stitched(self, sample_rate: i32, tolerance: int) -> Self
        decreases self.chunks.len(),
    {
        let i = self.next(sample_rate, tolerance);
        if 0 <= i < self.chunks.len() {
            self.swallow(i, sample_rate).stitched(sample_rate, tolerance)
        } else {
            self
        }
    }

    /// Whether all times lie within the limits of the engine.
    pub open spec fn in_range(self) -> bool {
        &&& -TIME_LIMIT_MS <= self.start <= TIME_LIMIT_MS
        &&& -TIME_LIMIT_MS <= self.end <= TIME_LIMIT_MS
        &&& chunks_in_range(self.chunks)
    }
}

/// Whether the times of all chunks lie within the limits of the engine.
pub open spec fn chunks_in_range(chunks: Seq<ProcessedChunk>) -> bool {
    forall|i: int|
        0 <= i < chunks.len() ==> {
            &&& -TIME_LIMIT_MS <= (#[trigger] chunks[i]).film_start_ms <= TIME_LIMIT_MS
            &&& -TIME_LIMIT_MS <= chunks[i].film_end_ms <= TIME_LIMIT_MS
        }
}

proof fn lemma_first_touching(
    chunks: Seq<ProcessedChunk>,
    start: int,
    end: int,
    sample_rate: i32,
    tolerance: int,
    i: int,
    k: int,
)
    requires
        0 <= i <= k <= chunks.len(),
        forall|j: int|
            i <= j < k ==> !touches(#[trigger] chunks[j], start, end, sample_rate, tolerance),
        k < chunks.len() ==> touches(chunks[k], start, end, sample_rate, tolerance),
    ensures
        first_touching(chunks, start, end, sample_rate, tolerance, i) == k,
    decreases k - i,
{
    if i < k {
        assert(!touches(chunks[i], start, end, sample_rate, tolerance));
        lemma_first_touching(chunks, start, end, sample_rate, tolerance, i + 1, k);
    }
}

/// Stitching never loses audio, and keeps within limits.
pub proof fn lemma_stitched(s: Stitching, sample_rate: i32, tolerance: int)
    ensures
        s.stitched(sample_rate, tolerance).pcm.len() >= s.pcm.len(),
        s.in_range() ==> s.stitched(sample_rate, tolerance).in_range(),
        in_order(s.anchors) ==> in_order(s.stitched(sample_rate, tolerance).anchors),
        anchors_in_range(s.anchors) ==> anchors_in_range(
            s.stitched(sample_rate, tolerance).anchors,
        ),
    decreases s.chunks.len(),
{
    let i = s.next(sample_rate, tolerance);
    if 0 <= i < s.chunks.len() {
        let c = s.chunks[i];
        let t = s.swallow(i, sample_rate);
        lemma_without(s.anchors, c.anchor_ids@.to_set());
        if s.in_range() {
            assert forall|k: int| 0 <= k < t.chunks.len() implies {
                &&& -TIME_LIMIT_MS <= (#[trigger] t.chunks[k]).film_start_ms <= TIME_LIMIT_MS
                &&& -TIME_LIMIT_MS <= t.chunks[k].film_end_ms <= TIME_LIMIT_MS
            } by {
                if k < i {
                    assert(t.chunks[k] == s.chunks[k]);
                } else {
                    assert(t.chunks[k] == s.chunks[k + 1]);
                }
            }
        }
        lemma_stitched(t, sample_rate, tolerance);
    }
}

/// The index of the first chunk that touches the stretch.
fn find_touching(
    chunks: &Vec<ProcessedChunk>,
    start: i64,
    end: i64,
    sample_rate: i32,
    tolerance: i64,
) -> (k: usize)
    requires
        chunks_in_range(chunks@),
        -TIME_LIMIT_MS <= start <= TIME_LIMIT_MS,
        -TIME_LIMIT_MS <= end <= TIME_LIMIT_MS,
    ensures
        k == first_touching(
            chunks@,
            start as int,
            end as int,
            sample_rate,
            tolerance as int,
            0,
        ),
        k <= chunks@.len(),
{
    let mut k: usize = 0;
    while k < chunks.len()
        invariant
            k <= chunks@.len(),
            chunks_in_range(chunks@),
            -TIME_LIMIT_MS <= start <= TIME_LIMIT_MS,
            -TIME_LIMIT_MS <= end <= TIME_LIMIT_MS,
            forall|j: int|
                0 <= j < k ==> !touches(
                    #[trigger] chunks@[j],
                    start as int,
                    end as int,
                    sample_rate,
                    tolerance as int,
                ),
        decreases chunks@.len() - k,
    {
        let c: &ProcessedChunk = &chunks[k];
        if c.sample_rate == sample_rate {
            let after: i64 = c.film_end_ms - start;
            let before: i64 = end - c.film_start_ms;
            let adjacent_after: bool = after <= tolerance && -after <= tolerance;
            let adjacent_before: bool = before <= tolerance && -before <= tolerance;
            let overlaps: bool = c.film_start_ms < end && c.film_end_ms > start;
            if adjacent_after || adjacent_before || overlaps {
                proof {
                    lemma_first_touching(
                        chunks@,
                        start as int,
                        end as int,
                        sample_rate,
                        tolerance as int,
                        0,
                        k as int,
                    );
                }
                return k;
            }
        }
        k = k + 1;
    }
    proof {
        lemma_first_touching(
            chunks@,
            start as int,
            end as int,
            sample_rate,
            tolerance as int,
            0,
            k as int,
        );
    }
    k
}

/// Two pieces of audio joined with the silence of a gap between them.
fn join(first: Vec<u8>, second: &Vec<u8>, gap_ms: i64, sample_rate: i32) -> (r: Vec<u8>)
    requires
        -2 * TIME_LIMIT_MS <= gap_ms <= 2 * TIME_LIMIT_MS,
        0 <= sample_rate <= 16000,
        first@.len() + silence(gap_ms as int, sample_rate).len() + second@.len() <= usize::MAX,
    ensures
        r@ == first@ + silence(gap_ms as int, sample_rate) + second@,
{
    let gap: i64 = if gap_ms < 0 { 0 } else { gap_ms };
    assert(0 <= gap * sample_rate <= 0x2_0000_0000_0000 * 16000) by (nonlinear_arith)
        requires
            0 <= gap <= 0x2_0000_0000_0000,
            0 <= sample_rate <= 16000,
    ;
    let gap_samples: usize = (gap * sample_rate as i64 / 1000) as usize;
    let ghost gap_len = silence(gap_ms as int, sample_rate).len();
    assert(gap_len == 2 * (gap * sample_rate / 1000));
    let gap_bytes: usize = gap_samples * 2;
    let ghost old_first = first@;
    let mut merged: Vec<u8> = first;
    let new_len: usize = merged.len() + gap_bytes;
    merged.resize(new_len, 0u8);
    assert(merged@ =~= old_first + silence(gap_ms as int, sample_rate)) by {
        assert forall|i: int| 0 <= i < old_first.len() implies merged@[i] == old_first[i] by {
            assert(merged@.subrange(0, old_first.len() as int)[i] == old_first[i]);
        }
    }
    merged.extend_from_slice(second.as_slice());
    assert(merged@ =~= old_first + silence(gap_ms as int, sample_rate) + second@);
    merged
}

/// Scan chunk history for adjacent/overlapping chunks, merge PCM. Returns
/// `(pcm, start, end, anchors_evicted)`.
pub fn stitch(
    chunks: &mut Vec<ProcessedChunk>,
    anchors: &mut Vec<Anchor>,
    pcm: Vec<u8>,
    start: i64,
    end: i64,
    sample_rate: i32,
    tolerance: i64,
) -> (r: (Vec<u8>, i64, i64, bool))
    requires
        (Stitching {
            pcm: pcm@,
            start,
            end,
            chunks: old(chunks)@,
            anchors: old(anchors)@,
            evicted: false,
        }).in_range(),
        0 <= sample_rate <= 16000,
        (Stitching {
            pcm: pcm@,
            start,
            end,
            chunks: old(chunks)@,
            anchors: old(anchors)@,
            evicted: false,
        }).stitched(sample_rate, tolerance as int).pcm.len() <= usize::MAX,
    ensures
        (Stitching {
            pcm: r.0@,
            start: r.1,
            end: r.2,
            chunks: final(chunks)@,
            anchors: final(anchors)@,
            evicted: r.3,
        }) == (Stitching {
            pcm: pcm@,
            start,
            end,
            chunks: old(chunks)@,
            anchors: old(anchors)@,
            evicted: false,
        }).stitched(sample_rate, tolerance as int),
{
    let ghost all = (Stitching {
        pcm: pcm@,
        start,
        end,
        chunks: chunks@,
        anchors: anchors@,
        evicted: false,
    }).stitched(sample_rate, tolerance as int);
    let mut pcm: Vec<u8> = pcm;
    let mut start: i64 = start;
    let mut end: i64 = end;
    let mut evicted: bool = false;
    loop
        invariant
            0 <= sample_rate <= 16000,
            (Stitching { pcm: pcm@, start, end, chunks: chunks@, anchors: anchors@, evicted })
                .in_range(),
            (Stitching { pcm: pcm@, start, end, chunks: chunks@, anchors: anchors@, evicted })
                .stitched(sample_rate, tolerance as int) == all,
            all.pcm.len() <= usize::MAX,
        ensures
            (Stitching { pcm: pcm@, start, end, chunks: chunks@, anchors: anchors@, evicted })
                == all,
        decreases chunks@.len(),
    {
        let ghost now = Stitching {
            pcm: pcm@,
            start,
            end,
            chunks: chunks@,
            anchors: anchors@,
            evicted,
        };
        let idx: usize = find_touching(chunks, start, end, sample_rate, tolerance);
        if idx >= chunks.len() {
            break;
        }
        let ghost then = now.swallow(idx as int, sample_rate);
        proof {
            lemma_stitched(then, sample_rate, tolerance as int);
            assert(then.stitched(sample_rate, tolerance as int) == all);
            assert(chunks@[idx as int].film_start_ms <= TIME_LIMIT_MS);
        }
        let chunk: ProcessedChunk = chunks.remove(idx);
        let ids: HashSet<Id> = id_set(&chunk.anchor_ids);
        *anchors = keep_others(anchors, &ids);
        if chunk.anchor_ids.len() > 0 {
            evicted = true;
        }
        if chunk.film_start_ms <= start {
            pcm = join(chunk.pcm_data, &pcm, start - chunk.film_end_ms, sample_rate);
            start = chunk.film_start_ms;
        } else {
            pcm = join(pcm, &chunk.pcm_data, chunk.film_start_ms - end, sample_rate);
            end = chunk.film_end_ms;
        }
        proof {
            assert((Stitching { pcm: pcm@, start, end, chunks: chunks@, anchors: anchors@, evicted })
                == then);
            assert forall|k: int| 0 <= k < chunks@.len() implies {
                &&& -TIME_LIMIT_MS <= (#[trigger] chunks@[k]).film_start_ms <= TIME_LIMIT_MS
                &&& -TIME_LIMIT_MS <= chunks@[k].film_end_ms <= TIME_LIMIT_MS
            } by {
                if k < idx {
                    assert(chunks@[k] == now.chunks[k]);
                } else {
                    assert(chunks@[k] == now.chunks[k + 1]);
                }
            }
        }
    }
    (pcm, start, end, evicted)
}

// ---------------------------------------------------------------------------
// How much audio comes together
// ---------------------------------------------------------------------------

/// A chunk without its audio.
#[derive(Clone, Copy)]
struct Outline {
    start: i64,
    end: i64,
    sample_rate: i32,
    len: usize,
}

/// Whether the outlines are those of the chunks.
spec fn outlines(rest: Seq<Outline>, chunks: Seq<ProcessedChunk>) -> bool {
    &&& rest.len() == chunks.len()
    &&& forall|i: int|
        0 <= i < rest.len() ==> {
            &&& (#[trigger] rest[i]).start == chunks[i].film_start_ms
            &&& rest[i].end == chunks[i].film_end_ms
            &&& rest[i].sample_rate == chunks[i].sample_rate
            &&& rest[i].len == chunks[i].pcm_data@.len()
        }
}

/// The index of the first outlined chunk that touches the stretch.
fn find_outline(
    rest: &Vec<Outline>,
    Ghost(chunks): Ghost<Seq<ProcessedChunk>>,
    start: i64,
    end: i64,
    sample_rate: i32,
    tolerance: i64,
) -> (k: usize)
    requires
        outlines(rest@, chunks),
        chunks_in_range(chunks),
        -TIME_LIMIT_MS <= start <= TIME_LIMIT_MS,
        -TIME_LIMIT_MS <= end <= TIME_LIMIT_MS,
    ensures
        k == first_touching(chunks, start as int, end as int, sample_rate, tolerance as int, 0),
        k <= rest@.len(),
{
    let mut k: usize = 0;
    while k < rest.len()
        invariant
            k <= rest@.len(),
            outlines(rest@, chunks),
            chunks_in_range(chunks),
            -TIME_LIMIT_MS <= start <= TIME_LIMIT_MS,
            -TIME_LIMIT_MS <= end <= TIME_LIMIT_MS,
            forall|j: int|
                0 <= j < k ==> !touches(
                    #[trigger] chunks[j],
                    start as int,
                    end as int,
                    sample_rate,
                    tolerance as int,
                ),
        ensures
            k < rest@.len() ==> touches(
                chunks[k as int],
                start as int,
                end as int,
                sample_rate,
                tolerance as int,
            ),
        decreases rest@.len() - k,
    {
        let c: Outline = rest[k];
        assert(chunks[k as int].film_start_ms == c.start);
        let after: i64 = c.end - start;
        let before: i64 = end - c.start;
        if c.sample_rate == sample_rate && (after <= tolerance && -after <= tolerance || before
            <= tolerance && -before <= tolerance || c.start < end && c.end > start) {
            break;
        }
        k = k + 1;
    }
    proof {
        lemma_first_touching(
            chunks,
            start as int,
            end as int,
            sample_rate,
            tolerance as int,
            0,
            k as int,
        );
    }
    k
}

/// Whether no more than `limit` bytes of audio come together in stitching.
pub fn stitches_within(
    chunks: &Vec<ProcessedChunk>,
    anchors: &Vec<Anchor>,
    pcm: &Vec<u8>,
    start: i64,
    end: i64,
    sample_rate: i32,
    tolerance: i64,
    limit: usize,
) -> (r: bool)
    requires
        (Stitching {
            pcm: pcm@,
            start,
            end,
            chunks: chunks@,
            anchors: anchors@,
            evicted: false,
        }).in_range(),
        0 <= sample_rate <= 16000,
    ensures
        r == ((Stitching {
            pcm: pcm@,
            start,
            end,
            chunks: chunks@,
            anchors: anchors@,
            evicted: false,
        }).stitched(sample_rate, tolerance as int).pcm.len() <= limit),
{
    let ghost mut now = Stitching {
        pcm: pcm@,
        start,
        end,
        chunks: chunks@,
        anchors: anchors@,
        evicted: false,
    };
    let ghost all = now.stitched(sample_rate, tolerance as int);
    let mut rest: Vec<Outline> = Vec::with_capacity(chunks.len());
    let mut i: usize = 0;
    while i < chunks.len()
        invariant
            i <= chunks@.len(),
            outlines(rest@, chunks@.take(i as int)),
        decreases chunks@.len() - i,
    {
        let c: &ProcessedChunk = &chunks[i];
        rest.push(
            Outline {
                start: c.film_start_ms,
                end: c.film_end_ms,
                sample_rate: c.sample_rate,
                len: c.pcm_data.len(),
            },
        );
        i = i + 1;
    }
    assert(chunks@.take(i as int) =~= chunks@);
    let mut start: i64 = start;
    let mut end: i64 = end;
    let mut len: u128 = pcm.len() as u128;
    loop
        invariant
            0 <= sample_rate <= 16000,
            now.in_range(),
            now.stitched(sample_rate, tolerance as int) == all,
            now.start == start,
            now.end == end,
            now.pcm.len() == len,
            outlines(rest@, now.chunks),
            len <= 0x4_0000_0000_0000_0000,
        ensures
            all.pcm.len() >= len,
            len <= limit ==> all.pcm.len() == len,
        decreases rest@.len(),
    {
        proof {
            lemma_stitched(now, sample_rate, tolerance as int);
        }
        if len > limit as u128 {
            break;
        }
        let k: usize = find_outline(
            &rest,
            Ghost(now.chunks),
            start,
            end,
            sample_rate,
            tolerance,
        );
        if k >= rest.len() {
            break;
        }
        let ghost before = rest@;
        let c: Outline = rest.remove(k);
        assert(c == before[k as int]);
        let gap_ms: i64 = if c.start <= start { start - c.end } else { c.start - end };
        let gap: i64 = if gap_ms < 0 { 0 } else { gap_ms };
        assert(0 <= gap * sample_rate <= 0x2_0000_0000_0000 * 16000) by (nonlinear_arith)
            requires
                0 <= gap <= 0x2_0000_0000_0000,
                0 <= sample_rate <= 16000,
        ;
        let gap_samples: i64 = gap * sample_rate as i64 / 1000;
        len = len + 2 * (gap_samples as u128) + c.len as u128;
        proof {
            let next = now.swallow(k as int, sample_rate);
            assert(silence(gap_ms as int, sample_rate).len() == 2 * gap_samples);
            assert(outlines(rest@, next.chunks)) by {
                assert forall|i: int| 0 <= i < rest@.len() implies {
                    &&& (#[trigger] rest@[i]).start == next.chunks[i].film_start_ms
                    &&& rest@[i].end == next.chunks[i].film_end_ms
                    &&& rest@[i].sample_rate == next.chunks[i].sample_rate
                    &&& rest@[i].len == next.chunks[i].pcm_data@.len()
                } by {
                    let j = if i < k {
                        i
                    } else {
                        i + 1
                    };
                    assert(rest@[i] == before[j]);
                    assert(next.chunks[i] == now.chunks[j]);
                }
            }
            assert(chunks_in_range(next.chunks)) by {
                assert forall|i: int| 0 <= i < next.chunks.len() implies {
                    &&& -TIME_LIMIT_MS <= (#[trigger] next.chunks[i]).film_start_ms <= TIME_LIMIT_MS
                    &&& -TIME_LIMIT_MS <= next.chunks[i].film_end_ms <= TIME_LIMIT_MS
                } by {
                    let j = if i < k {
                        i
                    } else {
                        i + 1
                    };
                    assert(next.chunks[i] == now.chunks[j]);
                }
            }
            now = next;
        }
        if c.start <= start {
            start = c.start;
        } else {
            end = c.end;
        }
    }
    len <= limit as u128
}

} // verus!
