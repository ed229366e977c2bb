//! What stitching comes to, told by the times of the chunks and by their
//! audio.

use crate::anchor::Anchor;
use crate::engine::ProcessedChunk;
use crate::engine_laws::lemma_without_contains;
use crate::stitch::{first_touching, silence, touches, Stitching};
use vstd::arithmetic::div_mod::lemma_div_multiples_vanish;
use vstd::arithmetic::mul::{
    lemma_mul_basics, lemma_mul_is_associative, lemma_mul_is_commutative,
    lemma_mul_is_distributive_add, lemma_mul_nonnegative,
};
use vstd::prelude::*;

verus! {

/// Whether a chunk and a stretch of the film have no moment in common and lie
/// further apart than the tolerance.
pub open spec fn lies_apart(c: ProcessedChunk, start: int, end: int, tolerance: int) -> bool {
    &&& c.film_end_ms <= start || end <= c.film_start_ms
    &&& start - c.film_end_ms > tolerance || c.film_end_ms - start > tolerance
    &&& end - c.film_start_ms > tolerance || c.film_start_ms - end > tolerance
}

/// Whether chunks `j` up to but without `k` lie apart from the stretch or are
/// of another sample rate.
pub open spec fn all_lie_apart(
    s: Stitching,
    sample_rate: i32,
    tolerance: int,
    j: int,
    k: int,
) -> bool {
    forall|i: int|
        j <= i < k && (#[trigger] s.chunks[i]).sample_rate == sample_rate ==> lies_apart(
            s.chunks[i],
            s.start as int,
            s.end as int,
            tolerance,
        )
}

/// The first chunk that touches the stretch is the first of its sample rate
/// that does not lie apart from it.
proof fn lemma_first(s: Stitching, sample_rate: i32, tolerance: int, i: int)
    requires
        0 <= i <= s.chunks.len(),
    ensures
        ({
            let k = first_touching(
                s.chunks,
                s.start as int,
                s.end as int,
                sample_rate,
                tolerance,
                i,
            );
            &&& i <= k <= s.chunks.len()
            &&& all_lie_apart(s, sample_rate, tolerance, i, k)
            &&& k < s.chunks.len() ==> {
                &&& s.chunks[k].sample_rate == sample_rate
                &&& !lies_apart(s.chunks[k], s.start as int, s.end as int, tolerance)
            }
        }),
    decreases s.chunks.len() - i,
{
    if i < s.chunks.len() && !touches(
        s.chunks[i],
        s.start as int,
        s.end as int,
        sample_rate,
        tolerance,
    ) {
        lemma_first(s, sample_rate, tolerance, i + 1);
    }
}

/// After stitching, every chunk of the same sample rate that is left is over
/// before the stretch begins or begins when the stretch is over, and neither
/// its end nor its start is within the tolerance of the stretch.
pub proof fn law_what_is_left_lies_apart(s: Stitching, sample_rate: i32, tolerance: int, i: int)
    requires
        0 <= i < s.stitched(sample_rate, tolerance).chunks.len(),
        s.stitched(sample_rate, tolerance).chunks[i].sample_rate == sample_rate,
    ensures
        ({
            let joined = s.stitched(sample_rate, tolerance);
            let c = joined.chunks[i];
            &&& c.film_end_ms <= joined.start || joined.end <= c.film_start_ms
            &&& joined.start - c.film_end_ms > tolerance || c.film_end_ms - joined.start > tolerance
            &&& joined.end - c.film_start_ms > tolerance || c.film_start_ms - joined.end > tolerance
        }),
    decreases s.chunks.len(),
{
    let k = s.next(sample_rate, tolerance);
    lemma_first(s, sample_rate, tolerance, 0);
    if 0 <= k < s.chunks.len() {
        let t = s.swallow(k, sample_rate);
        assert(s.stitched(sample_rate, tolerance) == t.stitched(sample_rate, tolerance));
        law_what_is_left_lies_apart(t, sample_rate, tolerance, i);
    } else {
        assert(s.stitched(sample_rate, tolerance) == s);
        assert(lies_apart(s.chunks[i], s.start as int, s.end as int, tolerance));
    }
}

/// Where every chunk is of another sample rate or lies apart from the stretch,
/// stitching changes nothing.
pub proof fn law_chunks_apart_are_not_joined(s: Stitching, sample_rate: i32, tolerance: int)
    requires
        forall|i: int|
            0 <= i < s.chunks.len() && (#[trigger] s.chunks[i]).sample_rate == sample_rate ==> {
                let c = s.chunks[i];
                &&& c.film_end_ms <= s.start || s.end <= c.film_start_ms
                &&& s.start - c.film_end_ms > tolerance || c.film_end_ms - s.start > tolerance
                &&& s.end - c.film_start_ms > tolerance || c.film_start_ms - s.end > tolerance
            },
    ensures
        s.stitched(sample_rate, tolerance) == s,
{
    lemma_first(s, sample_rate, tolerance, 0);
}

/// The stretch after stitching begins no later than before, with the earliest
/// of the chunks joined on: every chunk that is gone began no earlier. Its
/// start is that of the audio or of a chunk, and its end is that of the audio
/// or of a chunk.
pub proof fn law_stretch_begins_with_the_earliest(
    s: Stitching,
    sample_rate: i32,
    tolerance: int,
    c: ProcessedChunk,
)
    ensures
        ({
            let joined = s.stitched(sample_rate, tolerance);
            &&& joined.start <= s.start
            &&& s.chunks.contains(c) && !joined.chunks.contains(c) ==> joined.start
                <= c.film_start_ms && c.sample_rate == sample_rate
            &&& joined.start == s.start || exists|k: int|
                0 <= k < s.chunks.len() && (#[trigger] s.chunks[k]).film_start_ms == joined.start
                    && s.chunks[k].sample_rate == sample_rate
            &&& joined.end == s.end || exists|k: int|
                0 <= k < s.chunks.len() && (#[trigger] s.chunks[k]).film_end_ms == joined.end
                    && s.chunks[k].sample_rate == sample_rate
        }),
    decreases s.chunks.len(),
{
    let i = s.next(sample_rate, tolerance);
    lemma_first(s, sample_rate, tolerance, 0);
    if 0 <= i < s.chunks.len() {
        let t = s.swallow(i, sample_rate);
        let joined = s.stitched(sample_rate, tolerance);
        assert(joined == t.stitched(sample_rate, tolerance));
        law_stretch_begins_with_the_earliest(t, sample_rate, tolerance, c);
        if s.chunks.contains(c) && s.chunks[i] != c {
            let k = choose|k: int| 0 <= k < s.chunks.len() && s.chunks[k] == c;
            assert(t.chunks[if k < i {
                k
            } else {
                k - 1
            }] == c);
        }
        if joined.start != t.start {
            let k = choose|k: int|
                0 <= k < t.chunks.len() && (#[trigger] t.chunks[k]).film_start_ms == joined.start
                    && t.chunks[k].sample_rate == sample_rate;
            assert(s.chunks[if k < i {
                k
            } else {
                k + 1
            }] == t.chunks[k]);
        } else if t.start != s.start {
            assert(s.chunks[i].film_start_ms == joined.start);
        }
        if joined.end != t.end {
            let k = choose|k: int|
                0 <= k < t.chunks.len() && (#[trigger] t.chunks[k]).film_end_ms == joined.end
                    && t.chunks[k].sample_rate == sample_rate;
            assert(s.chunks[if k < i {
                k
            } else {
                k + 1
            }] == t.chunks[k]);
        } else if t.end != s.end {
            assert(s.chunks[i].film_end_ms == joined.end);
        }
    }
}

/// One chunk joined on: the two pieces of audio stand whole at the two ends,
/// the one that starts earlier first, the chunk where both start at once;
/// between them is silence, as long as the gap between the end of the first
/// and the start of the second, none where they overlap. The stretch begins
/// where the earlier of the two does, and ends where the second of them ends.
pub proof fn law_pieces_are_joined_in_time(s: Stitching, i: int, sample_rate: i32)
    requires
        0 <= i < s.chunks.len(),
        0 <= sample_rate,
    ensures
        ({
            let t = s.swallow(i, sample_rate);
            let c = s.chunks[i];
            let chunk_first = c.film_start_ms <= s.start;
            let (first, second) = if chunk_first {
                (c.pcm_data@, s.pcm)
            } else {
                (s.pcm, c.pcm_data@)
            };
            let gap: int = if chunk_first {
                s.start - c.film_end_ms
            } else {
                c.film_start_ms - s.end
            };
            let between = t.pcm.len() - first.len() - second.len();
            &&& t.start <= s.start && t.start <= c.film_start_ms
            &&& t.start == s.start || t.start == c.film_start_ms
            &&& chunk_first ==> t.end == s.end
            &&& !chunk_first ==> t.end == c.film_end_ms
            &&& t.pcm.take(first.len() as int) == first
            &&& t.pcm.skip(t.pcm.len() - second.len()) == second
            &&& forall|p: int|
                first.len() <= p < t.pcm.len() - second.len() ==> #[trigger] t.pcm[p] == 0
            &&& between >= 0
            &&& between % 2 == 0
            &&& gap <= 0 ==> between == 0
            &&& gap >= 0 ==> 500 * between <= gap * sample_rate < 500 * between + 1000
        }),
{
    let t = s.swallow(i, sample_rate);
    let c = s.chunks[i];
    let chunk_first = c.film_start_ms <= s.start;
    let gap: int = if chunk_first {
        s.start - c.film_end_ms
    } else {
        c.film_start_ms - s.end
    };
    let (first, second) = if chunk_first {
        (c.pcm_data@, s.pcm)
    } else {
        (s.pcm, c.pcm_data@)
    };
    let quiet = silence(gap, sample_rate);
    assert(t.pcm == first + quiet + second);
    assert(t.pcm.take(first.len() as int) =~= first);
    assert(t.pcm.skip(t.pcm.len() - second.len()) =~= second);
    if gap >= 0 {
        lemma_mul_nonnegative(gap, sample_rate as int);
    } else {
        assert(0 * (sample_rate as int) == 0);
    }
}

/// Stitching goes on with the first chunk of the sample rate that does not lie
/// apart from the stretch, and takes just this one out of the list.
pub proof fn law_first_of_those_is_joined(s: Stitching, sample_rate: i32, tolerance: int, i: int)
    requires
        0 <= i < s.chunks.len(),
        all_lie_apart(s, sample_rate, tolerance, 0, i),
        s.chunks[i].sample_rate == sample_rate,
        !lies_apart(s.chunks[i], s.start as int, s.end as int, tolerance),
    ensures
        s.stitched(sample_rate, tolerance) == s.swallow(i, sample_rate).stitched(
            sample_rate,
            tolerance,
        ),
        s.swallow(i, sample_rate).chunks == s.chunks.remove(i),
        s.stitched(sample_rate, tolerance).chunks.len() < s.chunks.len(),
{
    lemma_first(s, sample_rate, tolerance, 0);
    lemma_no_more_chunks(s.swallow(i, sample_rate), sample_rate, tolerance);
}

/// Stitching brings in no chunk.
proof fn lemma_no_more_chunks(s: Stitching, sample_rate: i32, tolerance: int)
    ensures
        s.stitched(sample_rate, tolerance).chunks.len() <= s.chunks.len(),
    decreases s.chunks.len(),
{
    let i = s.next(sample_rate, tolerance);
    if 0 <= i < s.chunks.len() {
        lemma_no_more_chunks(s.swallow(i, sample_rate), sample_rate, tolerance);
    }
}

/// Anchors are reported gone only where a chunk that had some was joined on.
pub proof fn law_eviction_needs_a_chunk_with_anchors(
    s: Stitching,
    sample_rate: i32,
    tolerance: int,
)
    requires
        !s.evicted,
        s.stitched(sample_rate, tolerance).evicted,
    ensures
        s.stitched(sample_rate, tolerance).chunks.len() < s.chunks.len(),
        exists|k: int|
            0 <= k < s.chunks.len() && (#[trigger] s.chunks[k]).anchor_ids@.len() > 0
                && s.chunks[k].sample_rate == sample_rate,
    decreases s.chunks.len(),
{
    let i = s.next(sample_rate, tolerance);
    lemma_first(s, sample_rate, tolerance, 0);
    if 0 <= i < s.chunks.len() {
        let t = s.swallow(i, sample_rate);
        lemma_no_more_chunks(t, sample_rate, tolerance);
        if t.evicted {
            assert(s.chunks[i].anchor_ids@.len() > 0);
        } else {
            law_eviction_needs_a_chunk_with_anchors(t, sample_rate, tolerance);
            let k = choose|k: int|
                0 <= k < t.chunks.len() && (#[trigger] t.chunks[k]).anchor_ids@.len() > 0
                    && t.chunks[k].sample_rate == sample_rate;
            assert(s.chunks[if k < i {
                k
            } else {
                k + 1
            }] == t.chunks[k]);
        }
    }
}

/// Where a chunk that had anchors is joined on, anchors are reported gone, also
/// if others had replaced them before.
pub proof fn law_chunks_with_anchors_are_reported(
    s: Stitching,
    sample_rate: i32,
    tolerance: int,
    c: ProcessedChunk,
)
    requires
        s.chunks.contains(c),
        !s.stitched(sample_rate, tolerance).chunks.contains(c),
        c.anchor_ids@.len() > 0,
    ensures
        s.stitched(sample_rate, tolerance).evicted,
    decreases s.chunks.len(),
{
    let i = s.next(sample_rate, tolerance);
    lemma_first(s, sample_rate, tolerance, 0);
    if 0 <= i < s.chunks.len() {
        let t = s.swallow(i, sample_rate);
        if s.chunks[i] == c {
            lemma_still_reported(t, sample_rate, tolerance);
        } else {
            let k = choose|k: int| 0 <= k < s.chunks.len() && s.chunks[k] == c;
            assert(t.chunks[if k < i {
                k
            } else {
                k - 1
            }] == c);
            law_chunks_with_anchors_are_reported(t, sample_rate, tolerance, c);
        }
    }
}

/// Anchors that are reported gone stay reported.
proof fn lemma_still_reported(s: Stitching, sample_rate: i32, tolerance: int)
    requires
        s.evicted,
    ensures
        s.stitched(sample_rate, tolerance).evicted,
    decreases s.chunks.len(),
{
    let i = s.next(sample_rate, tolerance);
    if 0 <= i < s.chunks.len() {
        lemma_still_reported(s.swallow(i, sample_rate), sample_rate, tolerance);
    }
}

/// An anchor goes only with a chunk of the sample rate that has it: there is one
/// of these less afterwards.
pub proof fn law_anchors_go_only_with_a_chunk(
    s: Stitching,
    sample_rate: i32,
    tolerance: int,
    a: Anchor,
) -> (c: ProcessedChunk)
    requires
        s.anchors.contains(a),
        !s.stitched(sample_rate, tolerance).anchors.contains(a),
    ensures
        c.anchor_ids@.contains(a.id),
        c.sample_rate == sample_rate,
        s.stitched(sample_rate, tolerance).chunks.to_multiset().count(c)
            < s.chunks.to_multiset().count(c),
    decreases s.chunks.len(),
{
    let i = s.next(sample_rate, tolerance);
    lemma_first(s, sample_rate, tolerance, 0);
    if 0 <= i < s.chunks.len() {
        let t = s.swallow(i, sample_rate);
        let d = s.chunks[i];
        lemma_without_contains(s.anchors, d.anchor_ids@.to_set(), a);
        s.chunks.to_multiset_ensures();
        if t.anchors.contains(a) {
            let c = law_anchors_go_only_with_a_chunk(t, sample_rate, tolerance, a);
            lemma_no_more_of_a_chunk(s, sample_rate, tolerance, c);
            assert(t.chunks.to_multiset().count(c) <= s.chunks.to_multiset().count(c)) by {
                vstd::seq_lib::to_multiset_remove(s.chunks, i);
            }
            c
        } else {
            lemma_no_more_of_a_chunk(t, sample_rate, tolerance, d);
            vstd::seq_lib::to_multiset_remove(s.chunks, i);
            assert(s.chunks.contains(d));
            d
        }
    } else {
        s.chunks[0]
    }
}

/// Of no chunk are there more after stitching.
proof fn lemma_no_more_of_a_chunk(
    s: Stitching,
    sample_rate: i32,
    tolerance: int,
    c: ProcessedChunk,
)
    ensures
        s.stitched(sample_rate, tolerance).chunks.to_multiset().count(c)
            <= s.chunks.to_multiset().count(c),
    decreases s.chunks.len(),
{
    let i = s.next(sample_rate, tolerance);
    if 0 <= i < s.chunks.len() {
        lemma_no_more_of_a_chunk(s.swallow(i, sample_rate), sample_rate, tolerance, c);
        vstd::seq_lib::to_multiset_remove(s.chunks, i);
    }
}

// ---------------------------------------------------------------------------
// Audio and time
// ---------------------------------------------------------------------------

/// Whether audio is as long as the stretch of the film that it stands for, at
/// so many bytes per millisecond.
pub open spec fn in_time(pcm: Seq<u8>, start: int, end: int, bytes_per_ms: int) -> bool {
    start < end && pcm.len() == bytes_per_ms * (end - start)
}

/// Whether a piece of audio stands at its time in the audio of a longer stretch.
pub open spec fn stands_at_its_time(
    piece: Seq<u8>,
    start: int,
    end: int,
    all: Stitching,
    bytes_per_ms: int,
) -> bool {
    &&& all.start <= start
    &&& end <= all.end
    &&& all.pcm.subrange(
        bytes_per_ms * (start - all.start),
        bytes_per_ms * (start - all.start) + piece.len(),
    ) == piece
    &&& 0 <= bytes_per_ms * (start - all.start)
    &&& bytes_per_ms * (start - all.start) + piece.len() <= all.pcm.len()
}

/// Whether all chunks of a sample rate are in time, further apart from each
/// other than the tolerance, and do not overlap the stretch.
pub open spec fn one_after_the_other(
    s: Stitching,
    sample_rate: i32,
    tolerance: int,
    bytes_per_ms: int,
) -> bool {
    &&& forall|i: int|
        0 <= i < s.chunks.len() && (#[trigger] s.chunks[i]).sample_rate == sample_rate ==> {
            let c = s.chunks[i];
            &&& in_time(c.pcm_data@, c.film_start_ms as int, c.film_end_ms as int, bytes_per_ms)
            &&& c.film_end_ms <= s.start || s.end <= c.film_start_ms
        }
    &&& forall|i: int, j: int|
        0 <= i < s.chunks.len() && 0 <= j < s.chunks.len() && i != j && (
        #[trigger] s.chunks[i]).sample_rate == sample_rate && (
        #[trigger] s.chunks[j]).sample_rate == sample_rate ==> {
            ||| s.chunks[i].film_end_ms + tolerance < s.chunks[j].film_start_ms
            ||| s.chunks[j].film_end_ms + tolerance < s.chunks[i].film_start_ms
        }
}

/// As many bytes as go into one stretch and the next go into both together.
proof fn lemma_lengths_add_up(b: int, x: int, y: int, z: int)
    requires
        0 <= b,
        x <= y <= z,
    ensures
        b * (z - x) == b * (y - x) + b * (z - y),
        0 <= b * (y - x),
        0 <= b * (z - y),
{
    lemma_mul_is_distributive_add(b, y - x, z - y);
    lemma_mul_nonnegative(b, y - x);
    lemma_mul_nonnegative(b, z - y);
}

/// A gap of whole milliseconds is filled with as many bytes.
proof fn lemma_silence(gap: int, sample_rate: i32, bytes_per_ms: int)
    requires
        0 <= gap,
        500 * bytes_per_ms == sample_rate,
        0 <= sample_rate,
    ensures
        bytes_per_ms % 2 == 0 ==> silence(gap, sample_rate).len() == bytes_per_ms * gap,
{
    if bytes_per_ms % 2 == 0 {
        let m = bytes_per_ms / 2;
        assert(gap * sample_rate == 1000 * (gap * m)) by {
            assert(sample_rate == m * 1000);
            lemma_mul_is_associative(gap, m, 1000);
            lemma_mul_is_commutative(gap * m, 1000);
        }
        lemma_div_multiples_vanish(gap * m, 1000);
        lemma_mul_nonnegative(gap, m);
        assert(2 * (gap * m) == bytes_per_ms * gap) by {
            assert(bytes_per_ms == 2 * m);
            lemma_mul_is_associative(2, m, gap);
            lemma_mul_is_commutative(m, gap);
        }
    }
}

/// What stands at its time in a part stands at its time in the whole.
proof fn lemma_part_of_part(
    piece: Seq<u8>,
    start: int,
    end: int,
    part: Stitching,
    all: Stitching,
    b: int,
)
    requires
        0 <= b,
        start <= end,
        stands_at_its_time(piece, start, end, part, b),
        stands_at_its_time(part.pcm, part.start as int, part.end as int, all, b),
    ensures
        stands_at_its_time(piece, start, end, all, b),
{
    lemma_lengths_add_up(b, all.start as int, part.start as int, start);
    let at = b * (part.start - all.start);
    let off = b * (start - part.start);
    assert(all.pcm.subrange(at + off, at + off + piece.len()) =~= all.pcm.subrange(
        at,
        at + part.pcm.len(),
    ).subrange(off, off + piece.len()));
}

/// Both pieces stand at their time when a chunk is joined on that does not
/// overlap the stretch.
proof fn lemma_pieces_at_their_time(s: Stitching, i: int, sample_rate: i32, b: int)
    requires
        0 <= i < s.chunks.len(),
        0 <= sample_rate,
        500 * b == sample_rate,
        b % 2 == 0,
        in_time(s.pcm, s.start as int, s.end as int, b),
        in_time(
            s.chunks[i].pcm_data@,
            s.chunks[i].film_start_ms as int,
            s.chunks[i].film_end_ms as int,
            b,
        ),
        s.chunks[i].film_end_ms <= s.start || s.end <= s.chunks[i].film_start_ms,
    ensures
        ({
            let t = s.swallow(i, sample_rate);
            let c = s.chunks[i];
            &&& in_time(t.pcm, t.start as int, t.end as int, b)
            &&& stands_at_its_time(s.pcm, s.start as int, s.end as int, t, b)
            &&& stands_at_its_time(
                c.pcm_data@,
                c.film_start_ms as int,
                c.film_end_ms as int,
                t,
                b,
            )
        }),
{
    let t = s.swallow(i, sample_rate);
    let c = s.chunks[i];
    let (s0, s1) = (s.start as int, s.end as int);
    let (c0, c1) = (c.film_start_ms as int, c.film_end_ms as int);
    lemma_mul_basics(b);
    assert(t.start - t.start == 0);
    if c1 <= s0 {
        lemma_silence(s0 - c1, sample_rate, b);
        lemma_lengths_add_up(b, c0, c1, s0);
        lemma_lengths_add_up(b, c0, s0, s1);
        assert(t.pcm.subrange(b * (s0 - c0), b * (s0 - c0) + s.pcm.len()) =~= s.pcm);
        assert(t.pcm.subrange(0, c.pcm_data@.len() as int) =~= c.pcm_data@);
    } else {
        lemma_silence(c0 - s1, sample_rate, b);
        lemma_lengths_add_up(b, s0, s1, c0);
        lemma_lengths_add_up(b, s0, c0, c1);
        assert(t.pcm.subrange(b * (c0 - s0), b * (c0 - s0) + c.pcm_data@.len())
            =~= c.pcm_data@);
        assert(t.pcm.subrange(0, s.pcm.len() as int) =~= s.pcm);
    }
}

/// Stitching keeps audio in time. Where the audio and the chunks are as long
/// as their stretches of the film, do not overlap, and the chunks are further
/// apart than the tolerance, the audio that comes together is as long as its
/// stretch too, and both the audio that was given and each chunk that was
/// joined on stand in it at their time.
pub proof fn law_stitched_audio_is_in_time(
    s: Stitching,
    sample_rate: i32,
    tolerance: int,
    bytes_per_ms: int,
    c: ProcessedChunk,
)
    requires
        0 <= sample_rate,
        500 * bytes_per_ms == sample_rate,
        bytes_per_ms % 2 == 0,
        in_time(s.pcm, s.start as int, s.end as int, bytes_per_ms),
        one_after_the_other(s, sample_rate, tolerance, bytes_per_ms),
    ensures
        ({
            let joined = s.stitched(sample_rate, tolerance);
            &&& in_time(joined.pcm, joined.start as int, joined.end as int, bytes_per_ms)
            &&& stands_at_its_time(
                s.pcm,
                s.start as int,
                s.end as int,
                joined,
                bytes_per_ms,
            )
            &&& s.chunks.contains(c) ==> joined.chunks.contains(c) || stands_at_its_time(
                c.pcm_data@,
                c.film_start_ms as int,
                c.film_end_ms as int,
                joined,
                bytes_per_ms,
            )
        }),
    decreases s.chunks.len(),
{
    let b = bytes_per_ms;
    let i = s.next(sample_rate, tolerance);
    lemma_first(s, sample_rate, tolerance, 0);
    let joined = s.stitched(sample_rate, tolerance);
    if 0 <= i < s.chunks.len() {
        let t = s.swallow(i, sample_rate);
        let d = s.chunks[i];
        assert(joined == t.stitched(sample_rate, tolerance));
        lemma_pieces_at_their_time(s, i, sample_rate, b);
        lemma_still_one_after_the_other(s, sample_rate, tolerance, b, i);
        law_stitched_audio_is_in_time(t, sample_rate, tolerance, b, c);
        lemma_part_of_part(s.pcm, s.start as int, s.end as int, t, joined, b);
        lemma_part_of_part(
            d.pcm_data@,
            d.film_start_ms as int,
            d.film_end_ms as int,
            t,
            joined,
            b,
        );
        if s.chunks.contains(c) && c != d {
            let k = choose|k: int| 0 <= k < s.chunks.len() && s.chunks[k] == c;
            assert(t.chunks[if k < i {
                k
            } else {
                k - 1
            }] == c);
        }
    } else {
        assert(joined == s);
        lemma_mul_basics(b);
        assert(s.start - s.start == 0);
        assert(s.pcm.subrange(0, s.pcm.len() as int) =~= s.pcm);
    }
}

/// Chunks that come one after the other still do when one is joined on.
proof fn lemma_still_one_after_the_other(
    s: Stitching,
    sample_rate: i32,
    tolerance: int,
    b: int,
    i: int,
)
    requires
        s.start < s.end,
        one_after_the_other(s, sample_rate, tolerance, b),
        0 <= i < s.chunks.len(),
        s.chunks[i].sample_rate == sample_rate,
        !lies_apart(s.chunks[i], s.start as int, s.end as int, tolerance),
    ensures
        one_after_the_other(s.swallow(i, sample_rate), sample_rate, tolerance, b),
{
    let t = s.swallow(i, sample_rate);
    let d = s.chunks[i];
    assert forall|j: int|
        0 <= j < t.chunks.len() && (#[trigger] t.chunks[j]).sample_rate == sample_rate implies {
        let c = t.chunks[j];
        &&& in_time(c.pcm_data@, c.film_start_ms as int, c.film_end_ms as int, b)
        &&& c.film_end_ms <= t.start || t.end <= c.film_start_ms
    } by {
        let jj = if j < i {
            j
        } else {
            j + 1
        };
        assert(t.chunks[j] == s.chunks[jj]);
    }
    assert forall|j: int, k: int|
        0 <= j < t.chunks.len() && 0 <= k < t.chunks.len() && j != k && (
        #[trigger] t.chunks[j]).sample_rate == sample_rate && (
        #[trigger] t.chunks[k]).sample_rate == sample_rate implies {
        ||| t.chunks[j].film_end_ms + tolerance < t.chunks[k].film_start_ms
        ||| t.chunks[k].film_end_ms + tolerance < t.chunks[j].film_start_ms
    } by {
        let jj = if j < i {
            j
        } else {
            j + 1
        };
        let kk = if k < i {
            k
        } else {
            k + 1
        };
        assert(t.chunks[j] == s.chunks[jj] && t.chunks[k] == s.chunks[kk]);
    }
}

} // verus!
