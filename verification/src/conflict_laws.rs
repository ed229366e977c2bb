//! What conflicts between anchors come to, told by places and confidences.

use crate::anchor::{in_order, lemma_count_upto, Anchor};
use crate::conflict::{
    all_inserted, all_win, beats_rivals, inserted, is_after, is_before, is_next, is_prev, is_rival,
    is_rival_id, rival_ids,
};
use crate::ids::Id;
use vstd::prelude::*;

verus! {

/// An old anchor has to go only for a new one that is less than the spacing
/// away, not at the same place, and has no other old anchor in between. Of
/// several old anchors at one place the one nearest in the list goes.
pub proof fn law_who_goes_stands_too_close(
    anchors: Seq<Anchor>,
    new_anchors: Seq<Anchor>,
    spacing: int,
    id: Id,
)
    requires
        rival_ids(anchors, new_anchors, spacing).contains(id),
    ensures
        exists|k: int, i: int|
            {
                let n = #[trigger] new_anchors[k];
                let a = #[trigger] anchors[i];
                &&& 0 <= k < new_anchors.len()
                &&& 0 <= i < anchors.len()
                &&& a.id == id
                &&& a.film_position_ms != n.film_position_ms
                &&& -spacing < a.film_position_ms - n.film_position_ms < spacing
                &&& forall|j: int|
                    0 <= j < anchors.len() && a.film_position_ms < n.film_position_ms ==> {
                        ||| (#[trigger] anchors[j]).film_position_ms < a.film_position_ms
                        ||| anchors[j].film_position_ms == a.film_position_ms && j <= i
                        ||| anchors[j].film_position_ms >= n.film_position_ms
                    }
                &&& forall|j: int|
                    0 <= j < anchors.len() && a.film_position_ms > n.film_position_ms ==> {
                        ||| (#[trigger] anchors[j]).film_position_ms > a.film_position_ms
                        ||| anchors[j].film_position_ms == a.film_position_ms && j >= i
                        ||| anchors[j].film_position_ms <= n.film_position_ms
                    }
            },
{
    assert(is_rival_id(anchors, new_anchors, spacing, id));
    let (k, i) = choose|k: int, i: int|
        0 <= k < new_anchors.len() && #[trigger] is_rival(
            anchors,
            new_anchors[k].film_position_ms as int,
            spacing,
            i,
        ) && anchors[i].id == id;
    let n = new_anchors[k];
    let a = anchors[i];
    assert(-spacing < a.film_position_ms - n.film_position_ms < spacing);
    assert forall|j: int|
        0 <= j < anchors.len() && a.film_position_ms < n.film_position_ms implies {
        ||| (#[trigger] anchors[j]).film_position_ms < a.film_position_ms
        ||| anchors[j].film_position_ms == a.film_position_ms && j <= i
        ||| anchors[j].film_position_ms >= n.film_position_ms
    } by {
        assert(is_prev(anchors, n.film_position_ms as int, spacing, i));
        assert(a.film_position_ms <= anchors[j].film_position_ms < n.film_position_ms
            ==> is_before(anchors[j], n.film_position_ms as int, spacing));
    }
    assert forall|j: int|
        0 <= j < anchors.len() && a.film_position_ms > n.film_position_ms implies {
        ||| (#[trigger] anchors[j]).film_position_ms > a.film_position_ms
        ||| anchors[j].film_position_ms == a.film_position_ms && j >= i
        ||| anchors[j].film_position_ms <= n.film_position_ms
    } by {
        assert(is_next(anchors, n.film_position_ms as int, spacing, i));
        assert(n.film_position_ms < anchors[j].film_position_ms <= a.film_position_ms ==> is_after(
            anchors[j],
            n.film_position_ms as int,
            spacing,
        ));
    }
}

/// New anchors are turned away only by an old one that is less than the
/// spacing away from one of them and that this one is not surer than.
pub proof fn law_who_turns_away_stands_too_close(
    anchors: Seq<Anchor>,
    new_anchors: Seq<Anchor>,
    spacing: int,
)
    requires
        !all_win(anchors, new_anchors, spacing),
    ensures
        exists|k: int, i: int|
            {
                let n = #[trigger] new_anchors[k];
                let a = #[trigger] anchors[i];
                &&& 0 <= k < new_anchors.len()
                &&& 0 <= i < anchors.len()
                &&& a.film_position_ms != n.film_position_ms
                &&& -spacing < a.film_position_ms - n.film_position_ms < spacing
                &&& !a.confidence.lt(n.confidence)
            },
{
    let k = choose|k: int|
        0 <= k < new_anchors.len() && !beats_rivals(anchors, #[trigger] new_anchors[k], spacing);
    let n = new_anchors[k];
    let i = choose|i: int| #[trigger]
        is_rival(anchors, n.film_position_ms as int, spacing, i) && !anchors[i].confidence.lt(
            n.confidence,
        );
    assert(anchors[i].film_position_ms != n.film_position_ms);
}

/// Old anchors that are at least the spacing away from every new one are left
/// alone: if all are, the new anchors come in and no old one goes.
pub proof fn law_distant_anchors_are_left_alone(
    anchors: Seq<Anchor>,
    new_anchors: Seq<Anchor>,
    spacing: int,
)
    requires
        forall|k: int, i: int|
            0 <= k < new_anchors.len() && 0 <= i < anchors.len() ==> {
                ||| (#[trigger] anchors[i]).film_position_ms - (
                #[trigger] new_anchors[k]).film_position_ms >= spacing
                ||| new_anchors[k].film_position_ms - anchors[i].film_position_ms >= spacing
            },
    ensures
        all_win(anchors, new_anchors, spacing),
        rival_ids(anchors, new_anchors, spacing) == Set::<Id>::empty(),
{
    if !all_win(anchors, new_anchors, spacing) {
        law_who_turns_away_stands_too_close(anchors, new_anchors, spacing);
    }
    assert forall|id: Id| !rival_ids(anchors, new_anchors, spacing).contains(id) by {
        if rival_ids(anchors, new_anchors, spacing).contains(id) {
            law_who_goes_stands_too_close(anchors, new_anchors, spacing, id);
        }
    }
    assert(rival_ids(anchors, new_anchors, spacing) =~= Set::<Id>::empty());
}

/// An old anchor that is at least the spacing away from every new one stays,
/// whatever becomes of the others.
pub proof fn law_a_distant_anchor_stays(
    anchors: Seq<Anchor>,
    new_anchors: Seq<Anchor>,
    spacing: int,
    id: Id,
)
    requires
        forall|k: int, i: int|
            0 <= k < new_anchors.len() && 0 <= i < anchors.len() && (#[trigger] anchors[i]).id == id
                ==> {
                ||| anchors[i].film_position_ms - (#[trigger] new_anchors[k]).film_position_ms
                    >= spacing
                ||| new_anchors[k].film_position_ms - anchors[i].film_position_ms >= spacing
            },
    ensures
        !rival_ids(anchors, new_anchors, spacing).contains(id),
{
    if rival_ids(anchors, new_anchors, spacing).contains(id) {
        law_who_goes_stands_too_close(anchors, new_anchors, spacing, id);
    }
}

/// Where an old anchor stands before `pos`, closer than the spacing, there is
/// a nearest one.
proof fn lemma_some_prev(anchors: Seq<Anchor>, pos: int, spacing: int, i: int) -> (p: int)
    requires
        0 <= i < anchors.len(),
        is_before(anchors[i], pos, spacing),
    ensures
        is_prev(anchors, pos, spacing, p),
        anchors[i].film_position_ms <= anchors[p].film_position_ms,
    decreases pos - anchors[i].film_position_ms, anchors.len() - i,
{
    if is_prev(anchors, pos, spacing, i) {
        i
    } else {
        let j = choose|j: int|
            0 <= j < anchors.len() && is_before(#[trigger] anchors[j], pos, spacing) && !({
                ||| anchors[j].film_position_ms < anchors[i].film_position_ms
                ||| anchors[j].film_position_ms == anchors[i].film_position_ms && j <= i
            });
        lemma_some_prev(anchors, pos, spacing, j)
    }
}

/// Where an old anchor stands after `pos`, closer than the spacing, there is a
/// nearest one.
proof fn lemma_some_next(anchors: Seq<Anchor>, pos: int, spacing: int, i: int) -> (p: int)
    requires
        0 <= i < anchors.len(),
        is_after(anchors[i], pos, spacing),
    ensures
        is_next(anchors, pos, spacing, p),
        anchors[i].film_position_ms >= anchors[p].film_position_ms,
    decreases anchors[i].film_position_ms - pos, i,
{
    if is_next(anchors, pos, spacing, i) {
        i
    } else {
        let j = choose|j: int|
            0 <= j < anchors.len() && is_after(#[trigger] anchors[j], pos, spacing) && !({
                ||| anchors[j].film_position_ms > anchors[i].film_position_ms
                ||| anchors[j].film_position_ms == anchors[i].film_position_ms && j >= i
            });
        lemma_some_next(anchors, pos, spacing, j)
    }
}

/// Where new anchors come in and an old one stands closer to one of them than
/// the spacing, on either side, then an old one that is at least as close on
/// that side is less sure than the new one, and has to go.
pub proof fn law_close_anchors_are_beaten(
    anchors: Seq<Anchor>,
    new_anchors: Seq<Anchor>,
    spacing: int,
    k: int,
    i: int,
)
    requires
        all_win(anchors, new_anchors, spacing),
        0 <= k < new_anchors.len(),
        0 <= i < anchors.len(),
        -spacing < anchors[i].film_position_ms - new_anchors[k].film_position_ms < spacing,
    ensures
        anchors[i].film_position_ms < new_anchors[k].film_position_ms ==> exists|j: int|
            {
                &&& 0 <= j < anchors.len()
                &&& anchors[i].film_position_ms <= (#[trigger] anchors[j]).film_position_ms
                    < new_anchors[k].film_position_ms
                &&& anchors[j].confidence.lt(new_anchors[k].confidence)
                &&& rival_ids(anchors, new_anchors, spacing).contains(anchors[j].id)
            },
        anchors[i].film_position_ms > new_anchors[k].film_position_ms ==> exists|j: int|
            {
                &&& 0 <= j < anchors.len()
                &&& new_anchors[k].film_position_ms < (#[trigger] anchors[j]).film_position_ms
                    <= anchors[i].film_position_ms
                &&& anchors[j].confidence.lt(new_anchors[k].confidence)
                &&& rival_ids(anchors, new_anchors, spacing).contains(anchors[j].id)
            },
{
    let pos = new_anchors[k].film_position_ms as int;
    assert(beats_rivals(anchors, new_anchors[k], spacing));
    if anchors[i].film_position_ms < pos {
        let j = lemma_some_prev(anchors, pos, spacing, i);
        assert(is_rival(anchors, new_anchors[k].film_position_ms as int, spacing, j));
        assert(is_rival_id(anchors, new_anchors, spacing, anchors[j].id));
        assert(anchors[j].film_position_ms < pos);
    }
    if anchors[i].film_position_ms > pos {
        let j = lemma_some_next(anchors, pos, spacing, i);
        assert(is_rival(anchors, new_anchors[k].film_position_ms as int, spacing, j));
        assert(is_rival_id(anchors, new_anchors, spacing, anchors[j].id));
        assert(anchors[j].film_position_ms > pos);
    }
}

/// A new anchor comes behind all that stand earlier in the film and before all
/// others, those at its own place too; the rest keep their order.
pub proof fn law_insertion_goes_by_place(anchors: Seq<Anchor>, a: Anchor) -> (p: int)
    requires
        in_order(anchors),
    ensures
        0 <= p <= anchors.len(),
        inserted(anchors, a).len() == anchors.len() + 1,
        inserted(anchors, a)[p] == a,
        forall|i: int|
            0 <= i < p ==> #[trigger] inserted(anchors, a)[i] == anchors[i]
                && anchors[i].film_position_ms < a.film_position_ms,
        forall|i: int|
            p < i <= anchors.len() ==> #[trigger] inserted(anchors, a)[i] == anchors[i - 1]
                && anchors[i - 1].film_position_ms >= a.film_position_ms,
{
    let p = lemma_place(anchors, a.film_position_ms as int);
    lemma_count_upto(anchors, a.film_position_ms - 1, p);
    p
}

/// In a list in order there is a place with all that is earlier before it and
/// all that is not behind it.
proof fn lemma_place(anchors: Seq<Anchor>, pos: int) -> (p: int)
    requires
        in_order(anchors),
    ensures
        0 <= p <= anchors.len(),
        forall|i: int| 0 <= i < p ==> (#[trigger] anchors[i]).film_position_ms < pos,
        forall|i: int| p <= i < anchors.len() ==> (#[trigger] anchors[i]).film_position_ms >= pos,
    decreases anchors.len(),
{
    if anchors.len() == 0 || anchors.last().film_position_ms < pos {
        anchors.len() as int
    } else {
        let p = lemma_place(anchors.drop_last(), pos);
        assert forall|i: int| 0 <= i < p implies (#[trigger] anchors[i]).film_position_ms < pos by {
            assert(anchors.drop_last()[i] == anchors[i]);
        }
        assert forall|i: int| p <= i < anchors.len() implies (
        #[trigger] anchors[i]).film_position_ms >= pos by {
            if i < anchors.len() - 1 {
                assert(anchors.drop_last()[i] == anchors[i]);
            }
        }
        p
    }
}

/// After any number of insertions the list is in order of place, and all
/// anchors are there.
pub proof fn law_insertions_keep_order(
    anchors: Seq<Anchor>,
    new_anchors: Seq<Anchor>,
    i: int,
    j: int,
)
    requires
        in_order(anchors),
        0 <= i <= j < all_inserted(anchors, new_anchors).len(),
    ensures
        all_inserted(anchors, new_anchors).len() == anchors.len() + new_anchors.len(),
        all_inserted(anchors, new_anchors)[i].film_position_ms <= all_inserted(
            anchors,
            new_anchors,
        )[j].film_position_ms,
{
    lemma_insertions(anchors, new_anchors);
}

/// Insertions keep the list in order.
proof fn lemma_insertions(anchors: Seq<Anchor>, new_anchors: Seq<Anchor>)
    requires
        in_order(anchors),
    ensures
        in_order(all_inserted(anchors, new_anchors)),
        all_inserted(anchors, new_anchors).len() == anchors.len() + new_anchors.len(),
    decreases new_anchors.len(),
{
    if new_anchors.len() > 0 {
        let earlier = all_inserted(anchors, new_anchors.drop_last());
        lemma_insertions(anchors, new_anchors.drop_last());
        let p = law_insertion_goes_by_place(earlier, new_anchors.last());
        let all = all_inserted(anchors, new_anchors);
        assert forall|i: int, j: int| 0 <= i <= j < all.len() implies (
        #[trigger] all[i]).film_position_ms <= (#[trigger] all[j]).film_position_ms by {
            if i < p {
                assert(all[i] == earlier[i]);
            }
            if j > p {
                assert(all[j] == earlier[j - 1]);
            }
            if i > p {
                assert(all[i] == earlier[i - 1]);
            }
            if j < p {
                assert(all[j] == earlier[j]);
            }
        }
    }
}

} // verus!
