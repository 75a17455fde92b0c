use vstd::prelude::*;
use crate::board::{crossing_error, BoardError};
use crate::card::{CardView, LaneView};
use crate::drag::DroppedCardData;
use crate::model::{
    board_wf, card_in_use, card_index, has_card, has_lane, id_differs, lane_index,
    lemma_has_card_push, lemma_has_card_remove, lemma_relocate_wf, lemma_remove_is_filter, moved,
    relocate,
};

verus! {

/// On a well-formed board, the card at position `k` of lane `i` is held by
/// lane `i` alone, at that position alone, and its `lane_id` is lane `i`'s id.
pub proof fn law_partition(lanes: Seq<LaneView>, i: int, k: int)
    requires
        board_wf(lanes),
        0 <= i < lanes.len(),
        0 <= k < lanes[i].cards.len(),
    ensures
        lanes[i].cards[k].lane_id == lanes[i].id,
        forall|j: int|
            0 <= j < lanes.len() ==> (#[trigger] has_card(lanes[j].cards, lanes[i].cards[k].id)
                <==> j == i),
        forall|l: int|
            0 <= l < lanes[i].cards.len() && lanes[i].cards[l].id == lanes[i].cards[k].id ==> l
                == k,
{
    let id = lanes[i].cards[k].id;
    assert forall|j: int| 0 <= j < lanes.len() implies (#[trigger] has_card(lanes[j].cards, id)
        <==> j == i) by {
        if j == i {
            assert(lanes[j].cards[k].id == id);
        }
        if has_card(lanes[j].cards, id) {
            let l = choose|l: int| 0 <= l < lanes[j].cards.len() && #[trigger] lanes[j].cards[l].id == id;
            assert(lanes[j].cards[l].id == lanes[i].cards[k].id);
        }
    }
}

/// The lane with a given id keeps its position when a card moves.
proof fn lemma_lane_index_kept(lanes: Seq<LaneView>, si: int, ti: int, kk: int, to: Seq<char>, id: Seq<char>)
    requires
        board_wf(lanes),
        0 <= si < lanes.len(),
        0 <= ti < lanes.len(),
        0 <= kk < lanes[si].cards.len(),
        lanes[ti].id == to,
        has_lane(lanes, id),
    ensures
        has_lane(relocate(lanes, si, ti, kk, to), id),
        lane_index(relocate(lanes, si, ti, kk, to), id) == lane_index(lanes, id),
{
    let r = relocate(lanes, si, ti, kk, to);
    lemma_relocate_wf(lanes, si, ti, kk, to);
    let i = lane_index(lanes, id);
    assert(r[i].id == id);
    let j = lane_index(r, id);
    assert(r[j].id == lanes[j].id);
}

/// Where the moved card ends up: last in the target lane, with its
/// `lane_id` rewritten; and the board stays well formed.
proof fn lemma_moved_card(lanes: Seq<LaneView>, card_id: Seq<char>, from: Seq<char>, to: Seq<char>)
    requires
        board_wf(lanes),
        has_lane(lanes, from),
        has_lane(lanes, to),
        has_card(lanes[lane_index(lanes, from)].cards, card_id),
    ensures
        ({
            let r = moved(lanes, card_id, from, to);
            let ti = lane_index(lanes, to);
            &&& board_wf(r)
            &&& r.len() == lanes.len()
            &&& forall|i: int| 0 <= i < r.len() ==> #[trigger] r[i].id == lanes[i].id
            &&& has_lane(r, from) && lane_index(r, from) == lane_index(lanes, from)
            &&& has_lane(r, to) && lane_index(r, to) == ti
            &&& r[ti].cards.len() > 0
            &&& r[ti].cards.last().id == card_id
            &&& r[ti].cards.last().lane_id == to
        }),
{
    let si = lane_index(lanes, from);
    let ti = lane_index(lanes, to);
    let kk = card_index(lanes[si].cards, card_id);
    lemma_relocate_wf(lanes, si, ti, kk, to);
    lemma_lane_index_kept(lanes, si, ti, kk, to, from);
    lemma_lane_index_kept(lanes, si, ti, kk, to, to);
}

/// Moving card `card_id` from lane `from` to a distinct lane `to` that does
/// not hold it leaves `from` without the card and `to` with it, its
/// `lane_id` now `to`.
pub proof fn law_move(lanes: Seq<LaneView>, card_id: Seq<char>, from: Seq<char>, to: Seq<char>)
    requires
        board_wf(lanes),
        has_lane(lanes, from),
        has_lane(lanes, to),
        has_card(lanes[lane_index(lanes, from)].cards, card_id),
        !has_card(lanes[lane_index(lanes, to)].cards, card_id),
    ensures
        ({
            let r = moved(lanes, card_id, from, to);
            &&& board_wf(r)
            &&& !has_card(r[lane_index(r, from)].cards, card_id)
            &&& has_card(r[lane_index(r, to)].cards, card_id)
            &&& r[lane_index(r, to)].cards[card_index(r[lane_index(r, to)].cards, card_id)].lane_id
                == to
            &&& r[lane_index(r, from)].cards == lanes[lane_index(lanes, from)].cards.filter(
                id_differs(card_id),
            )
            &&& r[lane_index(r, to)].cards == lanes[lane_index(lanes, to)].cards.push(
                CardView {
                    lane_id: to,
                    ..lanes[lane_index(lanes, from)].cards[card_index(
                        lanes[lane_index(lanes, from)].cards,
                        card_id,
                    )]
                },
            )
        }),
{
    let r = moved(lanes, card_id, from, to);
    lemma_moved_card(lanes, card_id, from, to);
    let ti = lane_index(lanes, to);
    let k = r[ti].cards.len() - 1;
    assert(r[ti].cards[k].id == card_id);
    law_partition(r, ti, k);
    let si = lane_index(lanes, from);
    assert(si != ti);
    let kk = card_index(lanes[si].cards, card_id);
    law_partition(lanes, si, kk);
    lemma_remove_is_filter(lanes[si].cards, kk);
}

/// How a card other than the moved one fares: lane `i` holds it after a
/// relocation exactly when it held it before.
proof fn lemma_relocate_others(
    lanes: Seq<LaneView>,
    si: int,
    ti: int,
    kk: int,
    to: Seq<char>,
    i: int,
    id: Seq<char>,
)
    requires
        0 <= si < lanes.len(),
        0 <= ti < lanes.len(),
        0 <= kk < lanes[si].cards.len(),
        0 <= i < lanes.len(),
        id != lanes[si].cards[kk].id,
    ensures
        has_card(relocate(lanes, si, ti, kk, to)[i].cards, id) <==> has_card(lanes[i].cards, id),
{
    let card = lanes[si].cards[kk];
    let removed = lanes.update(si, LaneView { cards: lanes[si].cards.remove(kk), ..lanes[si] });
    lemma_has_card_remove(lanes[si].cards, kk, id);
    lemma_has_card_push(removed[ti].cards, CardView { lane_id: to, ..card }, id);
}

/// When card `card_id` moves, every other card stays in the lane that held
/// it, and the ids on the board stay the same: none is lost, none is added,
/// and each is still held once.
pub proof fn law_other_cards_stay(
    lanes: Seq<LaneView>,
    card_id: Seq<char>,
    from: Seq<char>,
    to: Seq<char>,
)
    requires
        board_wf(lanes),
        has_lane(lanes, from),
        has_lane(lanes, to),
        has_card(lanes[lane_index(lanes, from)].cards, card_id),
    ensures
        ({
            let r = moved(lanes, card_id, from, to);
            &&& board_wf(r)
            &&& r.len() == lanes.len()
            &&& forall|i: int, id: Seq<char>|
                0 <= i < lanes.len() && id != card_id ==> (#[trigger] has_card(r[i].cards, id)
                    <==> has_card(lanes[i].cards, id))
            &&& forall|id: Seq<char>| #[trigger] card_in_use(r, id) <==> card_in_use(lanes, id)
        }),
{
    let r = moved(lanes, card_id, from, to);
    lemma_moved_card(lanes, card_id, from, to);
    let si = lane_index(lanes, from);
    let ti = lane_index(lanes, to);
    let kk = card_index(lanes[si].cards, card_id);
    assert forall|i: int, id: Seq<char>|
        0 <= i < lanes.len() && id != card_id implies (#[trigger] has_card(r[i].cards, id)
        <==> has_card(lanes[i].cards, id)) by {
        lemma_relocate_others(lanes, si, ti, kk, to, i, id);
    }
    assert forall|id: Seq<char>| #[trigger] card_in_use(r, id) <==> card_in_use(lanes, id) by {
        if id == card_id {
            assert(has_card(lanes[si].cards, id));
            let k = r[ti].cards.len() - 1;
            assert(r[ti].cards[k].id == id);
            assert(has_card(r[ti].cards, id));
        } else {
            if card_in_use(r, id) {
                let i = choose|i: int| 0 <= i < r.len() && #[trigger] has_card(r[i].cards, id);
                assert(has_card(lanes[i].cards, id));
            }
            if card_in_use(lanes, id) {
                let i = choose|i: int| 0 <= i < lanes.len() && #[trigger] has_card(lanes[i].cards, id);
                assert(has_card(r[i].cards, id));
            }
        }
    }
}

/// A drag that crosses from lane `a` into lane `b` and then from `b` into
/// lane `c` leaves the card in lane `c` alone, with `lane_id` equal to `c`.
pub proof fn law_crossing_chain(
    lanes: Seq<LaneView>,
    card_id: Seq<char>,
    a: Seq<char>,
    b: Seq<char>,
    c: Seq<char>,
)
    requires
        board_wf(lanes),
        has_lane(lanes, a),
        has_lane(lanes, b),
        has_lane(lanes, c),
        has_card(lanes[lane_index(lanes, a)].cards, card_id),
    ensures
        ({
            let r = moved(moved(lanes, card_id, a, b), card_id, b, c);
            &&& board_wf(r)
            &&& forall|i: int|
                0 <= i < r.len() ==> (#[trigger] has_card(r[i].cards, card_id) <==> r[i].id == c)
            &&& has_card(r[lane_index(r, c)].cards, card_id)
            &&& r[lane_index(r, c)].cards[card_index(r[lane_index(r, c)].cards, card_id)].lane_id
                == c
            &&& forall|i: int, id: Seq<char>|
                0 <= i < lanes.len() && id != card_id ==> (#[trigger] has_card(r[i].cards, id)
                    <==> has_card(lanes[i].cards, id))
        }),
{
    law_other_cards_stay(lanes, card_id, a, b);
    let r1 = moved(lanes, card_id, a, b);
    lemma_moved_card(lanes, card_id, a, b);
    let bi = lane_index(lanes, b);
    assert(r1[bi].cards[r1[bi].cards.len() - 1].id == card_id);
    assert(has_lane(r1, c)) by {
        let ci = lane_index(lanes, c);
        assert(r1[ci].id == c);
    }
    let r = moved(r1, card_id, b, c);
    lemma_moved_card(r1, card_id, b, c);
    law_other_cards_stay(r1, card_id, b, c);
    let ci = lane_index(r1, c);
    let k = r[ci].cards.len() - 1;
    assert(r[ci].cards[k].id == card_id);
    law_partition(r, ci, k);
    assert forall|i: int| 0 <= i < r.len() implies (#[trigger] has_card(r[i].cards, card_id) <==> r[i].id
        == c) by {
        if r[i].id == c {
            assert(i == ci);
        }
    }
    let l = card_index(r[ci].cards, card_id);
    assert(r[ci].cards[l].lane_id == r[ci].id);
}

/// A crossing whose card is not in its source lane is refused, so by the
/// contract of `BoardState::reconcile_crossing` the pass changes nothing: no
/// lane loses a card and none gains a copy.
pub proof fn law_absent_card_refused(lanes: Seq<LaneView>, data: &DroppedCardData)
    requires
        !has_lane(lanes, data.from_lane_id@) || !has_card(
            lanes[lane_index(lanes, data.from_lane_id@)].cards,
            data.card_id@,
        ),
    ensures
        crossing_error(lanes, data) is Some,
{
}

/// A crossing onto a lane that does not exist is refused, so by the contract
/// of `BoardState::reconcile_crossing` every lane keeps its cards.
pub proof fn law_unknown_target_refused(lanes: Seq<LaneView>, data: &DroppedCardData)
    requires
        !has_lane(lanes, data.to_lane_id@),
    ensures
        crossing_error(lanes, data) is Some,
        has_lane(lanes, data.from_lane_id@) ==> crossing_error(lanes, data) == Some(
            BoardError::TargetLaneNotFound,
        ),
{
}

/// A crossing that has just been reconciled, arriving again as a late
/// signal, is refused with `CardNotFoundInSourceLane`: by the contract of
/// `BoardState::reconcile_crossing` the second pass changes nothing, so two
/// passes leave the lanes as one did.
pub proof fn law_stale_crossing_refused(lanes: Seq<LaneView>, data: &DroppedCardData)
    requires
        board_wf(lanes),
        crossing_error(lanes, data) is None,
        data.from_lane_id@ != data.to_lane_id@,
    ensures
        crossing_error(moved(lanes, data.card_id@, data.from_lane_id@, data.to_lane_id@), data)
            == Some(BoardError::CardNotFoundInSourceLane),
{
    let ti = lane_index(lanes, data.to_lane_id@);
    let si = lane_index(lanes, data.from_lane_id@);
    assert(lanes[ti].id != lanes[si].id);
    if has_card(lanes[ti].cards, data.card_id@) {
        let k = card_index(lanes[ti].cards, data.card_id@);
        let kk = card_index(lanes[si].cards, data.card_id@);
        assert(lanes[ti].cards[k].id == lanes[si].cards[kk].id);
    }
    law_move(lanes, data.card_id@, data.from_lane_id@, data.to_lane_id@);
    lemma_moved_card(lanes, data.card_id@, data.from_lane_id@, data.to_lane_id@);
}

} // verus!
