use vstd::prelude::*;
use crate::card::{CardView, LaneView};

verus! {

/// No two lanes share an id.
pub open spec fn lane_ids_unique(lanes: Seq<LaneView>) -> bool {
    forall|i: int, j: int|
        0 <= i < lanes.len() && 0 <= j < lanes.len() && i != j ==> #[trigger] lanes[i].id
            != #[trigger] lanes[j].id
}

/// Every card names the lane that holds it.
pub open spec fn back_refs_agree(lanes: Seq<LaneView>) -> bool {
    forall|i: int, k: int|
        0 <= i < lanes.len() && 0 <= k < lanes[i].cards.len() ==> #[trigger] lanes[i].cards[k].lane_id
            == lanes[i].id
}

/// No two places on the board hold cards with the same id.
pub open spec fn card_ids_unique(lanes: Seq<LaneView>) -> bool {
    forall|i: int, k: int, j: int, l: int|
        0 <= i < lanes.len() && 0 <= j < lanes.len() && 0 <= k < lanes[i].cards.len() && 0 <= l
            < lanes[j].cards.len() && (i != j || k != l) ==> #[trigger] lanes[i].cards[k].id
            != #[trigger] lanes[j].cards[l].id
}

/// The board's invariant: lanes are told apart by id, and every card sits in
/// exactly one place, in the lane that its `lane_id` names.
pub open spec fn board_wf(lanes: Seq<LaneView>) -> bool {
    &&& lane_ids_unique(lanes)
    &&& back_refs_agree(lanes)
    &&& card_ids_unique(lanes)
}

/// Some lane has this id.
pub open spec fn has_lane(lanes: Seq<LaneView>, id: Seq<char>) -> bool {
    exists|i: int| 0 <= i < lanes.len() && #[trigger] lanes[i].id == id
}

/// Some card of the sequence has this id.
pub open spec fn has_card(cards: Seq<CardView>, id: Seq<char>) -> bool {
    exists|k: int| 0 <= k < cards.len() && #[trigger] cards[k].id == id
}

/// Some lane of the board holds a card with this id.
pub open spec fn card_in_use(lanes: Seq<LaneView>, id: Seq<char>) -> bool {
    exists|i: int| 0 <= i < lanes.len() && #[trigger] has_card(lanes[i].cards, id)
}

/// The position of the lane with this id (meaningful where `has_lane` holds).
pub open spec fn lane_index(lanes: Seq<LaneView>, id: Seq<char>) -> int {
    choose|i: int| 0 <= i < lanes.len() && #[trigger] lanes[i].id == id
}

/// The position of the card with this id (meaningful where `has_card` holds).
pub open spec fn card_index(cards: Seq<CardView>, id: Seq<char>) -> int {
    choose|k: int| 0 <= k < cards.len() && #[trigger] cards[k].id == id
}

/// Takes the card at position `k` out of lane `si`, then appends it, with
/// `lane_id` rewritten to `to`, to lane `ti`.
pub open spec fn relocate(lanes: Seq<LaneView>, si: int, ti: int, k: int, to: Seq<char>) -> Seq<
    LaneView,
> {
    let card = lanes[si].cards[k];
    let removed = lanes.update(si, LaneView { cards: lanes[si].cards.remove(k), ..lanes[si] });
    removed.update(
        ti,
        LaneView { cards: removed[ti].cards.push(CardView { lane_id: to, ..card }), ..removed[ti] },
    )
}

/// The lanes after card `card_id` moves from lane `from` to lane `to`.
pub open spec fn moved(lanes: Seq<LaneView>, card_id: Seq<char>, from: Seq<char>, to: Seq<char>) -> Seq<
    LaneView,
> {
    let si = lane_index(lanes, from);
    relocate(lanes, si, lane_index(lanes, to), card_index(lanes[si].cards, card_id), to)
}

/// The lanes after `card` is appended to the lane with id `lane_id`.
pub open spec fn with_card(lanes: Seq<LaneView>, lane_id: Seq<char>, card: CardView) -> Seq<
    LaneView,
> {
    let i = lane_index(lanes, lane_id);
    lanes.update(i, LaneView { cards: lanes[i].cards.push(card), ..lanes[i] })
}

/// Appending a card whose id is new to the board, and whose `lane_id` names
/// an existing lane, to that lane keeps the board's invariant.
pub proof fn lemma_with_card_wf(lanes: Seq<LaneView>, lane_id: Seq<char>, card: CardView)
    requires
        board_wf(lanes),
        has_lane(lanes, lane_id),
        card.lane_id == lane_id,
        !card_in_use(lanes, card.id),
    ensures
        board_wf(with_card(lanes, lane_id, card)),
{
    let r = with_card(lanes, lane_id, card);
    let li = lane_index(lanes, lane_id);
    assert forall|i: int, k: int|
        0 <= i < r.len() && 0 <= k < r[i].cards.len() && (i != li || k < lanes[li].cards.len())
            implies #[trigger] r[i].cards[k] == lanes[i].cards[k] by {}
    assert forall|i: int, k: int| 0 <= i < lanes.len() && 0 <= k < lanes[i].cards.len() implies #[trigger] lanes[i].cards[k].id != card.id by {
        if lanes[i].cards[k].id == card.id {
            assert(has_card(lanes[i].cards, card.id));
        }
    }
}

/// The lanes after the lane with id `lane_id` is renamed to `name`.
pub open spec fn renamed(lanes: Seq<LaneView>, lane_id: Seq<char>, name: Seq<char>) -> Seq<LaneView> {
    let i = lane_index(lanes, lane_id);
    lanes.update(i, LaneView { name, ..lanes[i] })
}

/// The lanes after the card at position `k` of lane `i` gets a new name and
/// description.
pub open spec fn edited(
    lanes: Seq<LaneView>,
    i: int,
    k: int,
    name: Seq<char>,
    description: Seq<char>,
) -> Seq<LaneView> {
    lanes.update(
        i,
        LaneView {
            cards: lanes[i].cards.update(k, CardView { name, description, ..lanes[i].cards[k] }),
            ..lanes[i]
        },
    )
}

/// Editing a card's text keeps the board's invariant.
pub proof fn lemma_edited_wf(
    lanes: Seq<LaneView>,
    i: int,
    k: int,
    name: Seq<char>,
    description: Seq<char>,
)
    requires
        board_wf(lanes),
        0 <= i < lanes.len(),
        0 <= k < lanes[i].cards.len(),
    ensures
        board_wf(edited(lanes, i, k, name, description)),
{
    let r = edited(lanes, i, k, name, description);
    assert forall|a: int, b: int| 0 <= a < r.len() && 0 <= b < r[a].cards.len() implies #[trigger] r[a].cards[b].id
        == lanes[a].cards[b].id && r[a].cards[b].lane_id == lanes[a].cards[b].lane_id by {}
}

/// The test that keeps every card but those with id `id`.
pub open spec fn id_differs(id: Seq<char>) -> spec_fn(CardView) -> bool {
    |c: CardView| c.id != id
}

/// Filtering a sequence whose every element passes keeps it whole.
proof fn lemma_filter_keeps_all(cards: Seq<CardView>, pred: spec_fn(CardView) -> bool)
    requires
        forall|m: int| 0 <= m < cards.len() ==> pred(#[trigger] cards[m]),
    ensures
        cards.filter(pred) == cards,
    decreases cards.len(),
{
    reveal(Seq::filter);
    if cards.len() > 0 {
        let rest = cards.drop_last();
        assert forall|m: int| 0 <= m < rest.len() implies pred(#[trigger] rest[m]) by {
            assert(rest[m] == cards[m]);
        }
        lemma_filter_keeps_all(rest, pred);
        assert(rest.push(cards.last()) =~= cards);
    }
}

/// Where only the card at position `k` has its id, taking that position out
/// is the same as filtering that id out.
pub proof fn lemma_remove_is_filter(cards: Seq<CardView>, k: int)
    requires
        0 <= k < cards.len(),
        forall|m: int| 0 <= m < cards.len() && m != k ==> #[trigger] cards[m].id != cards[k].id,
    ensures
        cards.remove(k) == cards.filter(id_differs(cards[k].id)),
{
    let pred = id_differs(cards[k].id);
    let a = cards.subrange(0, k);
    let b = seq![cards[k]];
    let c = cards.subrange(k + 1, cards.len() as int);
    assert(cards =~= a + (b + c));
    Seq::filter_distributes_over_add(a, b + c, pred);
    Seq::filter_distributes_over_add(b, c, pred);
    assert forall|m: int| 0 <= m < a.len() implies pred(#[trigger] a[m]) by {
        assert(a[m] == cards[m]);
    }
    assert forall|m: int| 0 <= m < c.len() implies pred(#[trigger] c[m]) by {
        assert(c[m] == cards[k + 1 + m]);
    }
    lemma_filter_keeps_all(a, pred);
    lemma_filter_keeps_all(c, pred);
    reveal_with_fuel(Seq::filter, 2);
    assert(b.drop_last() =~= Seq::<CardView>::empty());
    assert(b.filter(pred) =~= Seq::<CardView>::empty());
    assert(cards.remove(k) =~= a + c);
}

/// A card id other than the one taken out is held after a removal exactly
/// where it was held before.
pub proof fn lemma_has_card_remove(cards: Seq<CardView>, k: int, id: Seq<char>)
    requires
        0 <= k < cards.len(),
        id != cards[k].id,
    ensures
        has_card(cards.remove(k), id) <==> has_card(cards, id),
{
    let r = cards.remove(k);
    if has_card(cards, id) {
        let m = choose|m: int| 0 <= m < cards.len() && #[trigger] cards[m].id == id;
        if m < k {
            assert(r[m].id == id);
        } else {
            assert(r[m - 1].id == id);
        }
    }
    if has_card(r, id) {
        let m = choose|m: int| 0 <= m < r.len() && #[trigger] r[m].id == id;
        if m < k {
            assert(cards[m].id == id);
        } else {
            assert(cards[m + 1].id == id);
        }
    }
}

/// A card id other than the appended card's is held after an append exactly
/// where it was held before.
pub proof fn lemma_has_card_push(cards: Seq<CardView>, card: CardView, id: Seq<char>)
    requires
        id != card.id,
    ensures
        has_card(cards.push(card), id) <==> has_card(cards, id),
{
    let r = cards.push(card);
    if has_card(cards, id) {
        let m = choose|m: int| 0 <= m < cards.len() && #[trigger] cards[m].id == id;
        assert(r[m].id == id);
    }
    if has_card(r, id) {
        let m = choose|m: int| 0 <= m < r.len() && #[trigger] r[m].id == id;
        assert(cards[m].id == id);
    }
}

/// Where the card at `(i, k)` after `relocate(lanes, si, ti, kk, _)` stood
/// before it.
spec fn origin(lanes: Seq<LaneView>, si: int, ti: int, kk: int, i: int, k: int) -> (int, int) {
    let new_len = if si == ti {
        lanes[ti].cards.len() as int
    } else {
        lanes[ti].cards.len() + 1int
    };
    if i == ti && k == new_len - 1 {
        (si, kk)
    } else if i == si && k >= kk {
        (si, k + 1)
    } else {
        (i, k)
    }
}

/// A relocation onto an existing lane keeps the board's invariant.
pub proof fn lemma_relocate_wf(lanes: Seq<LaneView>, si: int, ti: int, kk: int, to: Seq<char>)
    requires
        board_wf(lanes),
        0 <= si < lanes.len(),
        0 <= ti < lanes.len(),
        0 <= kk < lanes[si].cards.len(),
        lanes[ti].id == to,
    ensures
        board_wf(relocate(lanes, si, ti, kk, to)),
        relocate(lanes, si, ti, kk, to).len() == lanes.len(),
{
    let r = relocate(lanes, si, ti, kk, to);
    assert forall|i: int, k: int|
        0 <= i < r.len() && 0 <= k < r[i].cards.len() implies ({
            let (oi, ok) = origin(lanes, si, ti, kk, i, k);
            &&& 0 <= oi < lanes.len()
            &&& 0 <= ok < lanes[oi].cards.len()
            &&& #[trigger] r[i].cards[k].id == lanes[oi].cards[ok].id
            &&& r[i].cards[k].lane_id == r[i].id
        }) by {
        let (oi, ok) = origin(lanes, si, ti, kk, i, k);
        if i == si && i != ti {
            if k >= kk {
                assert(r[i].cards[k] == lanes[si].cards[k + 1]);
            } else {
                assert(r[i].cards[k] == lanes[si].cards[k]);
            }
        }
    }
    assert forall|i: int, k: int, j: int, l: int|
        0 <= i < r.len() && 0 <= j < r.len() && 0 <= k < r[i].cards.len() && 0 <= l
            < r[j].cards.len() && (i != j || k != l) implies #[trigger] r[i].cards[k].id
        != #[trigger] r[j].cards[l].id by {
        let (oi, ok) = origin(lanes, si, ti, kk, i, k);
        let (oj, ol) = origin(lanes, si, ti, kk, j, l);
        assert(r[i].cards[k].id == lanes[oi].cards[ok].id);
        assert(r[j].cards[l].id == lanes[oj].cards[ol].id);
    }
}

} // verus!
