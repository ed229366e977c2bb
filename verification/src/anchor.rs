//! Anchors: places on the film at which the shift of the subtitle is known.

use crate::binary64::Binary64;
use crate::ids::Id;
use vstd::prelude::*;

verus! {

/// A place on the film at which the shift of the subtitle is known.
#[derive(Clone, Copy, Debug, PartialEq, Eq, Structural)]
pub struct Anchor {
    pub id: Id,
    pub film_position_ms: i64,
    pub delta_ms: i64,
    pub confidence: Binary64,
    pub line_start: usize,
    pub line_end: usize,  // exclusive
    pub chunk_id: Id,
}

/// Whether the anchors are in order of their positions.
pub open spec fn in_order(anchors: Seq<Anchor>) -> bool {
    forall|i: int, j: int|
        0 <= i <= j < anchors.len() ==> (#[trigger] anchors[i]).film_position_ms <= (
        #[trigger] anchors[j]).film_position_ms
}

/// The number of anchors at or before `t`.
pub open spec fn count_upto(anchors: Seq<Anchor>, t: int) -> int
    decreases anchors.len(),
{
    if anchors.len() == 0 {
        0
    } else {
        count_upto(anchors.drop_last(), t) + if anchors.last().film_position_ms <= t {
            1int
        } else {
            0int
        }
    }
}

/// In a list in order, the anchors at or before `t` are the first ones.
pub proof fn lemma_count_upto(anchors: Seq<Anchor>, t: int, k: int)
    requires
        0 <= k <= anchors.len(),
        forall|i: int| 0 <= i < k ==> (#[trigger] anchors[i]).film_position_ms <= t,
        forall|i: int| k <= i < anchors.len() ==> (#[trigger] anchors[i]).film_position_ms > t,
    ensures
        count_upto(anchors, t) == k,
    decreases anchors.len(),
{
    if anchors.len() > 0 {
        let rest = anchors.drop_last();
        if k == anchors.len() {
            assert(anchors[k - 1].film_position_ms <= t);
            lemma_count_upto(rest, t, k - 1);
        } else {
            assert(anchors[anchors.len() - 1].film_position_ms > t);
            lemma_count_upto(rest, t, k);
        }
    }
}

/// Where the anchors past `t` begin.
pub fn partition_upto(anchors: &[Anchor], t: i64) -> (k: usize)
    requires
        in_order(anchors@),
    ensures
        k == count_upto(anchors@, t as int),
        k <= anchors@.len(),
        forall|i: int| 0 <= i < k ==> (#[trigger] anchors@[i]).film_position_ms <= t,
        forall|i: int| k <= i < anchors@.len() ==> (#[trigger] anchors@[i]).film_position_ms > t,
{
    let mut lo: usize = 0;
    let mut hi: usize = anchors.len();
    while lo < hi
        invariant
            in_order(anchors@),
            lo <= hi <= anchors@.len(),
            forall|i: int| 0 <= i < lo ==> (#[trigger] anchors@[i]).film_position_ms <= t,
            forall|i: int|
                hi <= i < anchors@.len() ==> (#[trigger] anchors@[i]).film_position_ms > t,
        decreases hi - lo,
    {
        let mid: usize = lo + (hi - lo) / 2;
        if anchors[mid].film_position_ms <= t {
            lo = mid + 1;
        } else {
            hi = mid;
        }
    }
    proof {
        lemma_count_upto(anchors@, t as int, lo as int);
    }
    lo
}

} // verus!
