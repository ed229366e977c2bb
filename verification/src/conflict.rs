//! Conflicts between anchors: new anchors that stand too close to old ones
//! have to be surer than these, all of them, or none is taken.

use crate::anchor::{count_upto, in_order, lemma_count_upto, Anchor};
use crate::engine::{anchors_in_range, TIME_LIMIT_MS};
use crate::ids::Id;
use std::collections::HashSet;
use vstd::prelude::*;

verus! {

broadcast use vstd::std_specs::hash::group_hash_axioms;

/// Whether an anchor stands before `pos`, closer than the spacing.
pub open spec fn is_before(a: Anchor, pos: int, spacing: int) -> bool {
    a.film_position_ms < pos && pos - a.film_position_ms < spacing
}

/// Whether an anchor stands after `pos`, closer than the spacing.
pub open spec fn is_after(a: Anchor, pos: int, spacing: int) -> bool {
    a.film_position_ms > pos && a.film_position_ms - pos < spacing
}

/// Whether the anchor with index `i` is the nearest one before `pos` within
/// the spacing; of several at the same place, the last in the list.
pub open spec fn is_prev(anchors: Seq<Anchor>, pos: int, spacing: int, i: int) -> bool {
    &&& 0 <= i < anchors.len()
    &&& is_before(anchors[i], pos, spacing)
    &&& forall|j: int|
        0 <= j < anchors.len() && is_before(#[trigger] anchors[j], pos, spacing) ==> {
            ||| anchors[j].film_position_ms < anchors[i].film_position_ms
            ||| anchors[j].film_position_ms == anchors[i].film_position_ms && j <= i
        }
}

/// Whether the anchor with index `i` is the nearest one after `pos` within
/// the spacing; of several at the same place, the first in the list.
pub open spec fn is_next(anchors: Seq<Anchor>, pos: int, spacing: int, i: int) -> bool {
    &&& 0 <= i < anchors.len()
    &&& is_after(anchors[i], pos, spacing)
    &&& forall|j: int|
        0 <= j < anchors.len() && is_after(#[trigger] anchors[j], pos, spacing) ==> {
            ||| anchors[j].film_position_ms > anchors[i].film_position_ms
            ||| anchors[j].film_position_ms == anchors[i].film_position_ms && j >= i
        }
}

/// Whether the anchor with index `i` is a neighbour that a new anchor at `pos`
/// has to beat.
pub open spec fn is_rival(anchors: Seq<Anchor>, pos: int, spacing: int, i: int) -> bool {
    is_prev(anchors, pos, spacing, i) || is_next(anchors, pos, spacing, i)
}

/// Whether a new anchor is surer than all its rivals.
pub open spec fn beats_rivals(anchors: Seq<Anchor>, n: Anchor, spacing: int) -> bool {
    forall|i: int| #[trigger]
        is_rival(anchors, n.film_position_ms as int, spacing, i) ==> anchors[i].confidence.lt(
            n.confidence,
        )
}

/// Whether `id` is that of a rival of one of the new anchors.
pub open spec fn is_rival_id(
    anchors: Seq<Anchor>,
    new_anchors: Seq<Anchor>,
    spacing: int,
    id: Id,
) -> bool {
    exists|k: int, i: int|
        0 <= k < new_anchors.len() && #[trigger] is_rival(
            anchors,
            new_anchors[k].film_position_ms as int,
            spacing,
            i,
        ) && anchors[i].id == id
}

/// The identifiers of the rivals of all new anchors.
pub open spec fn rival_ids(
    anchors: Seq<Anchor>,
    new_anchors: Seq<Anchor>,
    spacing: int,
) -> Set<Id> {
    Set::new(|id: Id| is_rival_id(anchors, new_anchors, spacing, id))
}

/// Whether all new anchors are surer than their rivals.
pub open spec fn all_win(anchors: Seq<Anchor>, new_anchors: Seq<Anchor>, spacing: int) -> bool {
    forall|k: int|
        0 <= k < new_anchors.len() ==> beats_rivals(anchors, #[trigger] new_anchors[k], spacing)
}

/// The nearest anchor before `pos` within the spacing.
fn find_prev(anchors: &Vec<Anchor>, pos: i64, spacing: i64) -> (r: Option<usize>)
    requires
        anchors_in_range(anchors@),
        -TIME_LIMIT_MS <= pos <= TIME_LIMIT_MS,
    ensures
        match r {
            Some(i) => is_prev(anchors@, pos as int, spacing as int, i as int),
            None => forall|i: int|
                !(#[trigger] is_prev(anchors@, pos as int, spacing as int, i)),
        },
{
    let mut best: Option<usize> = None;
    let mut i: usize = 0;
    while i < anchors.len()
        invariant
            i <= anchors@.len(),
            anchors_in_range(anchors@),
            -TIME_LIMIT_MS <= pos <= TIME_LIMIT_MS,
            match best {
                Some(b) => {
                    &&& b < i
                    &&& is_before(anchors@[b as int], pos as int, spacing as int)
                    &&& forall|j: int|
                        0 <= j < i && is_before(#[trigger] anchors@[j], pos as int, spacing as int)
                            ==> {
                            ||| anchors@[j].film_position_ms < anchors@[b as int].film_position_ms
                            ||| anchors@[j].film_position_ms == anchors@[b as int].film_position_ms
                                && j <= b
                        }
                },
                None => forall|j: int|
                    0 <= j < i ==> !is_before(#[trigger] anchors@[j], pos as int, spacing as int),
            },
        decreases anchors@.len() - i,
    {
        let at: i64 = anchors[i].film_position_ms;
        if at < pos && pos - at < spacing {
            let better: bool = match best {
                Some(b) => at >= anchors[b].film_position_ms,
                None => true,
            };
            if better {
                best = Some(i);
            }
        }
        i = i + 1;
    }
    best
}

/// The nearest anchor after `pos` within the spacing.
fn find_next(anchors: &Vec<Anchor>, pos: i64, spacing: i64) -> (r: Option<usize>)
    requires
        anchors_in_range(anchors@),
        -TIME_LIMIT_MS <= pos <= TIME_LIMIT_MS,
    ensures
        match r {
            Some(i) => is_next(anchors@, pos as int, spacing as int, i as int),
            None => forall|i: int|
                !(#[trigger] is_next(anchors@, pos as int, spacing as int, i)),
        },
{
    let mut best: Option<usize> = None;
    let mut i: usize = 0;
    while i < anchors.len()
        invariant
            i <= anchors@.len(),
            anchors_in_range(anchors@),
            -TIME_LIMIT_MS <= pos <= TIME_LIMIT_MS,
            match best {
                Some(b) => {
                    &&& b < i
                    &&& is_after(anchors@[b as int], pos as int, spacing as int)
                    &&& forall|j: int|
                        0 <= j < i && is_after(#[trigger] anchors@[j], pos as int, spacing as int)
                            ==> {
                            ||| anchors@[j].film_position_ms > anchors@[b as int].film_position_ms
                            ||| anchors@[j].film_position_ms == anchors@[b as int].film_position_ms
                                && j >= b
                        }
                },
                None => forall|j: int|
                    0 <= j < i ==> !is_after(#[trigger] anchors@[j], pos as int, spacing as int),
            },
        decreases anchors@.len() - i,
    {
        let at: i64 = anchors[i].film_position_ms;
        if at > pos && at - pos < spacing {
            let better: bool = match best {
                Some(b) => at < anchors[b].film_position_ms,
                None => true,
            };
            if better {
                best = Some(i);
            }
        }
        i = i + 1;
    }
    best
}

/// There is at most one nearest anchor on each side.
proof fn lemma_rivals_unique(anchors: Seq<Anchor>, pos: int, spacing: int, i: int, j: int)
    ensures
        is_prev(anchors, pos, spacing, i) && is_prev(anchors, pos, spacing, j) ==> i == j,
        is_next(anchors, pos, spacing, i) && is_next(anchors, pos, spacing, j) ==> i == j,
{
}

/// Conflict resolution. Returns `Some(ids_to_remove)` if all new anchors win
/// their conflicts, `None` if any loses.
pub fn resolve(anchors: &Vec<Anchor>, new_anchors: &[Anchor], spacing: i64) -> (r: Option<
    HashSet<Id>,
>)
    requires
        anchors_in_range(anchors@),
        forall|k: int|
            0 <= k < new_anchors@.len() ==> -TIME_LIMIT_MS <= (
            #[trigger] new_anchors@[k]).film_position_ms <= TIME_LIMIT_MS,
    ensures
        r is Some <==> all_win(anchors@, new_anchors@, spacing as int),
        r matches Some(ids) ==> ids@ == rival_ids(anchors@, new_anchors@, spacing as int),
{
    let mut ids: HashSet<Id> = HashSet::new();
    let mut k: usize = 0;
    while k < new_anchors.len()
        invariant
            k <= new_anchors@.len(),
            anchors_in_range(anchors@),
            forall|j: int|
                0 <= j < new_anchors@.len() ==> -TIME_LIMIT_MS <= (
                #[trigger] new_anchors@[j]).film_position_ms <= TIME_LIMIT_MS,
            forall|j: int|
                0 <= j < k ==> beats_rivals(
                    anchors@,
                    #[trigger] new_anchors@[j],
                    spacing as int,
                ),
            forall|id: Id|
                ids@.contains(id) <==> is_rival_id(
                    anchors@,
                    new_anchors@.take(k as int),
                    spacing as int,
                    id,
                ),
        decreases new_anchors@.len() - k,
    {
        let n: Anchor = new_anchors[k];
        let pos: i64 = n.film_position_ms;
        let prev: Option<usize> = find_prev(anchors, pos, spacing);
        let next: Option<usize> = find_next(anchors, pos, spacing);
        let ghost before = ids@;
        if let Some(p) = prev {
            if !anchors[p].confidence.less_than(n.confidence) {
                assert(is_rival(anchors@, pos as int, spacing as int, p as int));
                assert(!beats_rivals(anchors@, new_anchors@[k as int], spacing as int));
                return None;
            }
            ids.insert(anchors[p].id);
        }
        if let Some(x) = next {
            if !anchors[x].confidence.less_than(n.confidence) {
                assert(is_rival(anchors@, pos as int, spacing as int, x as int));
                assert(!beats_rivals(anchors@, new_anchors@[k as int], spacing as int));
                return None;
            }
            ids.insert(anchors[x].id);
        }
        proof {
            let seen = new_anchors@.take(k as int);
            let more = new_anchors@.take(k + 1);
            assert(beats_rivals(anchors@, n, spacing as int)) by {
                assert forall|i: int| #[trigger]
                    is_rival(anchors@, pos as int, spacing as int, i) implies anchors@[
                    i].confidence.lt(n.confidence) by {
                    if prev is Some {
                        lemma_rivals_unique(
                            anchors@,
                            pos as int,
                            spacing as int,
                            i,
                            prev->0 as int,
                        );
                    }
                    if next is Some {
                        lemma_rivals_unique(
                            anchors@,
                            pos as int,
                            spacing as int,
                            i,
                            next->0 as int,
                        );
                    }
                }
            }
            assert forall|id: Id| ids@.contains(id) <==> is_rival_id(
                anchors@,
                more,
                spacing as int,
                id,
            ) by {
                if before.contains(id) {
                    let (j, i) = choose|j: int, i: int|
                        0 <= j < seen.len() && #[trigger] is_rival(
                            anchors@,
                            seen[j].film_position_ms as int,
                            spacing as int,
                            i,
                        ) && anchors@[i].id == id;
                    assert(is_rival(anchors@, more[j].film_position_ms as int, spacing as int, i));
                }
                assert(more[k as int] == n);
                if prev is Some && anchors@[prev->0 as int].id == id {
                    assert(is_rival(
                        anchors@,
                        more[k as int].film_position_ms as int,
                        spacing as int,
                        prev->0 as int,
                    ));
                }
                if next is Some && anchors@[next->0 as int].id == id {
                    assert(is_rival(
                        anchors@,
                        more[k as int].film_position_ms as int,
                        spacing as int,
                        next->0 as int,
                    ));
                }
                if is_rival_id(anchors@, more, spacing as int, id) {
                    let (j, i) = choose|j: int, i: int|
                        0 <= j < more.len() && #[trigger] is_rival(
                            anchors@,
                            more[j].film_position_ms as int,
                            spacing as int,
                            i,
                        ) && anchors@[i].id == id;
                    if j < k {
                        assert(seen[j] == more[j]);
                        assert(is_rival(
                            anchors@,
                            seen[j].film_position_ms as int,
                            spacing as int,
                            i,
                        ));
                    } else {
                        if prev is Some {
                            lemma_rivals_unique(
                                anchors@,
                                pos as int,
                                spacing as int,
                                i,
                                prev->0 as int,
                            );
                        }
                        if next is Some {
                            lemma_rivals_unique(
                                anchors@,
                                pos as int,
                                spacing as int,
                                i,
                                next->0 as int,
                            );
                        }
                    }
                }
            }
        }
        k = k + 1;
    }
    assert(new_anchors@.take(k as int) =~= new_anchors@);
    assert(ids@ =~= rival_ids(anchors@, new_anchors@, spacing as int));
    Some(ids)
}

// ---------------------------------------------------------------------------
// Insertion
// ---------------------------------------------------------------------------

/// The list with an anchor put where it belongs, before others at its place.
pub open spec fn inserted(anchors: Seq<Anchor>, a: Anchor) -> Seq<Anchor> {
    anchors.insert(count_upto(anchors, a.film_position_ms - 1), a)
}

/// The list with all new anchors put where they belong, one after the other.
pub open spec fn all_inserted(anchors: Seq<Anchor>, new_anchors: Seq<Anchor>) -> Seq<Anchor>
    decreases new_anchors.len(),
{
    if new_anchors.len() == 0 {
        anchors
    } else {
        inserted(all_inserted(anchors, new_anchors.drop_last()), new_anchors.last())
    }
}

/// Where an anchor at `pos` belongs.
fn place_of(anchors: &Vec<Anchor>, pos: i64) -> (k: usize)
    requires
        in_order(anchors@),
    ensures
        k == count_upto(anchors@, pos - 1),
        k <= anchors@.len(),
        forall|i: int| 0 <= i < k ==> (#[trigger] anchors@[i]).film_position_ms < pos,
        forall|i: int| k <= i < anchors@.len() ==> (#[trigger] anchors@[i]).film_position_ms >= pos,
{
    let mut lo: usize = 0;
    let mut hi: usize = anchors.len();
    while lo < hi
        invariant
            in_order(anchors@),
            lo <= hi <= anchors@.len(),
            forall|i: int| 0 <= i < lo ==> (#[trigger] anchors@[i]).film_position_ms < pos,
            forall|i: int|
                hi <= i < anchors@.len() ==> (#[trigger] anchors@[i]).film_position_ms >= pos,
        decreases hi - lo,
    {
        let mid: usize = lo + (hi - lo) / 2;
        if anchors[mid].film_position_ms < pos {
            lo = mid + 1;
        } else {
            hi = mid;
        }
    }
    proof {
        lemma_count_upto(anchors@, pos - 1, lo as int);
    }
    lo
}

/// Puts all new anchors where they belong.
pub fn insert_all(anchors: &mut Vec<Anchor>, new_anchors: &Vec<Anchor>)
    requires
        in_order(old(anchors)@),
    ensures
        final(anchors)@ == all_inserted(old(anchors)@, new_anchors@),
        in_order(final(anchors)@),
        anchors_in_range(old(anchors)@) && anchors_in_range(new_anchors@) ==> anchors_in_range(
            final(anchors)@,
        ),
{
    let ghost before = anchors@;
    let mut k: usize = 0;
    assert(new_anchors@.take(0) =~= Seq::<Anchor>::empty());
    while k < new_anchors.len()
        invariant
            k <= new_anchors@.len(),
            before == old(anchors)@,
            in_order(anchors@),
            anchors@ == all_inserted(before, new_anchors@.take(k as int)),
            anchors_in_range(before) && anchors_in_range(new_anchors@) ==> anchors_in_range(
                anchors@,
            ),
        decreases new_anchors@.len() - k,
    {
        let a: Anchor = new_anchors[k];
        let ghost now = anchors@;
        let ghost next = new_anchors@.take(k + 1);
        assert(next.drop_last() =~= new_anchors@.take(k as int));
        assert(next.last() == a);
        let at: usize = place_of(anchors, a.film_position_ms);
        anchors.insert(at, a);
        assert(anchors@ =~= inserted(now, a));
        k = k + 1;
    }
    assert(new_anchors@.take(k as int) =~= new_anchors@);
}

} // verus!
