use vstd::prelude::*;
use crate::card::{cards_view, Card, CardView, Lane, LaneView};
use crate::drag::{DragCoordinator, DraggedCard, DroppedCardData};
use crate::ids::{random_id, GENERATED_ID_LEN};
use crate::model::{
    board_wf, card_in_use, card_index, edited, has_card, has_lane, lane_index, lemma_edited_wf,
    lemma_relocate_wf, lemma_with_card_wf, moved, relocate, renamed, with_card,
};

verus! {

/// Why a board operation or a reconciliation pass did nothing.
#[derive(PartialEq, Eq, Structural, Debug, Clone, Copy)]
pub enum BoardError {
    LaneNotFound,
    CardNotFound,
    SourceLaneNotFound,
    TargetLaneNotFound,
    CardNotFoundInSourceLane,
    IdInUse,
}

/// The error that a reconciliation pass of `data` reports on these lanes, if
/// any: the source lane is looked up first, then the target lane, then the
/// card inside the source lane.
pub open spec fn crossing_error(lanes: Seq<LaneView>, data: &DroppedCardData) -> Option<BoardError> {
    if !has_lane(lanes, data.from_lane_id@) {
        Some(BoardError::SourceLaneNotFound)
    } else if !has_lane(lanes, data.to_lane_id@) {
        Some(BoardError::TargetLaneNotFound)
    } else if !has_card(lanes[lane_index(lanes, data.from_lane_id@)].cards, data.card_id@) {
        Some(BoardError::CardNotFoundInSourceLane)
    } else {
        None
    }
}

/// The views of a sequence of lanes.
pub open spec fn lanes_view(lanes: Seq<Lane>) -> Seq<LaneView> {
    lanes.map_values(|l: Lane| l@)
}

/// One board session: its lanes, the drag in progress and the pending
/// crossing event.
pub struct BoardState {
    pub name: String,
    pub lanes: Vec<Lane>,
    pub drag: DragCoordinator,
    pub dropped: Option<DroppedCardData>,
}

fn find_card(cards: &Vec<Card>, id: &String) -> (r: Option<usize>)
    ensures
        match r {
            Some(k) => k < cards@.len() && cards_view(cards@)[k as int].id == id@,
            None => !has_card(cards_view(cards@), id@),
        },
{
    let mut k: usize = 0;
    while k < cards.len()
        invariant
            k <= cards@.len(),
            forall|m: int| 0 <= m < k ==> cards_view(cards@)[m].id != id@,
        decreases cards@.len() - k,
    {
        if cards[k].id == *id {
            return Some(k);
        }
        k = k + 1;
    }
    None
}

impl BoardState {
    /// The board's lanes as mathematical values.
    pub open spec fn lanes_view(&self) -> Seq<LaneView> {
        lanes_view(self.lanes@)
    }

    /// The board's invariant.
    pub open spec fn wf(&self) -> bool {
        board_wf(self.lanes_view())
    }

    fn find_lane_index(&self, id: &String) -> (r: Option<usize>)
        ensures
            match r {
                Some(i) => i < self.lanes@.len() && self.lanes_view()[i as int].id == id@,
                None => !has_lane(self.lanes_view(), id@),
            },
    {
        let mut i: usize = 0;
        while i < self.lanes.len()
            invariant
                i <= self.lanes@.len(),
                forall|m: int| 0 <= m < i ==> self.lanes_view()[m].id != id@,
            decreases self.lanes@.len() - i,
        {
            if self.lanes[i].id == *id {
                return Some(i);
            }
            i = i + 1;
        }
        None
    }

    /// Runs one reconciliation pass for a crossing event: the card leaves its
    /// source lane, is appended to the target lane with `lane_id` rewritten,
    /// and the drag slot follows it. On any error nothing changes.
    pub fn reconcile_crossing(&mut self, data: &DroppedCardData) -> (r: Result<(), BoardError>)
        requires
            old(self).wf(),
        ensures
            final(self).wf(),
            final(self).name == old(self).name,
            final(self).dropped == old(self).dropped,
            match crossing_error(old(self).lanes_view(), data) {
                Some(e) => r == Err::<(), BoardError>(e) && *final(self) == *old(self),
                None => r == Ok::<(), BoardError>(()),
            },
            r is Ok ==> final(self).lanes_view() == moved(
                old(self).lanes_view(),
                data.card_id@,
                data.from_lane_id@,
                data.to_lane_id@,
            ),
            r is Ok ==> final(self).drag.slot == Some(
                DraggedCard { card_id: data.card_id, from_lane_id: data.to_lane_id },
            ),
    {
        let si = match self.find_lane_index(&data.from_lane_id) {
            Some(i) => i,
            None => return Err(BoardError::SourceLaneNotFound),
        };
        let ti = match self.find_lane_index(&data.to_lane_id) {
            Some(i) => i,
            None => return Err(BoardError::TargetLaneNotFound),
        };
        let ghost lv = self.lanes_view();
        proof {
            assert(lane_index(lv, data.from_lane_id@) == si as int);
            assert(lane_index(lv, data.to_lane_id@) == ti as int);
        }
        let k = match find_card(&self.lanes[si].cards, &data.card_id) {
            Some(k) => k,
            None => return Err(BoardError::CardNotFoundInSourceLane),
        };
        proof {
            assert(card_index(lv[si as int].cards, data.card_id@) == k as int);
            lemma_relocate_wf(lv, si as int, ti as int, k as int, data.to_lane_id@);
        }
        self.move_at(si, ti, k, &data.to_lane_id);
        self.drag.slot = Some(
            DraggedCard { card_id: data.card_id.clone(), from_lane_id: data.to_lane_id.clone() },
        );
        Ok(())
    }

    fn move_at(&mut self, si: usize, ti: usize, k: usize, to: &String)
        requires
            si < old(self).lanes@.len(),
            ti < old(self).lanes@.len(),
            k < old(self).lanes@[si as int].cards@.len(),
        ensures
            final(self).lanes_view() == relocate(
                old(self).lanes_view(),
                si as int,
                ti as int,
                k as int,
                to@,
            ),
            final(self).name == old(self).name,
            final(self).drag == old(self).drag,
            final(self).dropped == old(self).dropped,
    {
        let ghost lv = self.lanes_view();
        let mut card = self.lanes[si].cards.remove(k);
        card.lane_id = to.clone();
        self.lanes[ti].cards.push(card);
        proof {
            let r = relocate(lv, si as int, ti as int, k as int, to@);
            assert forall|i: int| 0 <= i < r.len() implies #[trigger] self.lanes_view()[i] == r[i] by {
                assert(self.lanes_view()[i].cards =~= r[i].cards);
            }
            assert(self.lanes_view() =~= r);
        }
    }
}

impl BoardState {
    /// Appends an empty lane with the given id and name, unless a lane
    /// already has that id.
    pub fn add_lane_with_id(&mut self, id: String, name: String) -> (r: Result<(), BoardError>)
        requires
            old(self).wf(),
        ensures
            final(self).wf(),
            final(self).name == old(self).name,
            final(self).drag == old(self).drag,
            final(self).dropped == old(self).dropped,
            r == if has_lane(old(self).lanes_view(), id@) {
                Err(BoardError::IdInUse)
            } else {
                Ok(())
            },
            r is Err ==> *final(self) == *old(self),
            r is Ok ==> final(self).lanes_view() == old(self).lanes_view().push(
                LaneView { id: id@, name: name@, cards: Seq::empty() },
            ),
    {
        if let Some(_) = self.find_lane_index(&id) {
            return Err(BoardError::IdInUse);
        }
        let ghost lv = self.lanes_view();
        let lane = Lane::new(id, name);
        let ghost l = lane@;
        self.lanes.push(lane);
        proof {
            assert(self.lanes_view() =~= lv.push(l));
        }
        Ok(())
    }

    /// Appends an empty lane under a freshly generated id, and returns that
    /// id. Should the generated id collide with a lane's id, nothing changes
    /// and `IdInUse` is returned; a generated id has `GENERATED_ID_LEN`
    /// characters, so where no lane id has that length the call succeeds.
    pub fn add_lane(&mut self, name: String) -> (r: Result<String, BoardError>)
        requires
            old(self).wf(),
        ensures
            final(self).wf(),
            final(self).name == old(self).name,
            final(self).drag == old(self).drag,
            final(self).dropped == old(self).dropped,
            r matches Ok(id) ==> !has_lane(old(self).lanes_view(), id@),
            r matches Ok(id) ==> final(self).lanes_view() == old(self).lanes_view().push(
                LaneView { id: id@, name: name@, cards: Seq::empty() },
            ),
            r matches Err(e) ==> e == BoardError::IdInUse,
            r is Err ==> *final(self) == *old(self),
            r is Err ==> exists|i: int|
                0 <= i < old(self).lanes_view().len() && #[trigger] old(
                    self,
                ).lanes_view()[i].id.len() == GENERATED_ID_LEN as nat,
    {
        let id = random_id();
        match self.add_lane_with_id(id.clone(), name) {
            Ok(()) => Ok(id),
            Err(e) => Err(e),
        }
    }

    /// Whether some lane holds a card with this id.
    pub fn card_id_in_use(&self, id: &String) -> (r: bool)
        ensures
            r == card_in_use(self.lanes_view(), id@),
    {
        let mut i: usize = 0;
        while i < self.lanes.len()
            invariant
                i <= self.lanes@.len(),
                forall|m: int| 0 <= m < i ==> !has_card(#[trigger] self.lanes_view()[m].cards, id@),
            decreases self.lanes@.len() - i,
        {
            if let Some(_) = find_card(&self.lanes[i].cards, id) {
                assert(has_card(self.lanes_view()[i as int].cards, id@));
                return true;
            }
            i = i + 1;
        }
        false
    }

    /// Appends a card with the given id, name and description to the lane
    /// `lane_id`. Fails with `LaneNotFound` if there is no such lane, and with
    /// `IdInUse` if a card of the board already has that id.
    pub fn add_card_with_id(
        &mut self,
        lane_id: &String,
        card_id: String,
        name: String,
        description: String,
    ) -> (r: Result<(), BoardError>)
        requires
            old(self).wf(),
        ensures
            final(self).wf(),
            final(self).name == old(self).name,
            final(self).drag == old(self).drag,
            final(self).dropped == old(self).dropped,
            r == if !has_lane(old(self).lanes_view(), lane_id@) {
                Err(BoardError::LaneNotFound)
            } else if card_in_use(old(self).lanes_view(), card_id@) {
                Err(BoardError::IdInUse)
            } else {
                Ok(())
            },
            r is Err ==> *final(self) == *old(self),
            r is Ok ==> final(self).lanes_view() == with_card(
                old(self).lanes_view(),
                lane_id@,
                CardView {
                    id: card_id@,
                    lane_id: lane_id@,
                    name: name@,
                    description: description@,
                },
            ),
    {
        let li = match self.find_lane_index(lane_id) {
            Some(i) => i,
            None => return Err(BoardError::LaneNotFound),
        };
        if self.card_id_in_use(&card_id) {
            return Err(BoardError::IdInUse);
        }
        let ghost lv = self.lanes_view();
        proof {
            assert(lane_index(lv, lane_id@) == li as int);
        }
        let card = Card::new(card_id, lane_id.clone(), name).with_description(description);
        let ghost c = card@;
        self.lanes[li].cards.push(card);
        proof {
            let r = with_card(lv, lane_id@, c);
            assert forall|i: int| 0 <= i < r.len() implies #[trigger] self.lanes_view()[i] == r[i] by {
                assert(self.lanes_view()[i].cards =~= r[i].cards);
            }
            assert(self.lanes_view() =~= r);
            lemma_with_card_wf(lv, lane_id@, c);
        }
        Ok(())
    }

    /// Appends a card under a freshly generated id to the lane `lane_id`, and
    /// returns that id. Fails with `LaneNotFound` if there is no such lane;
    /// should the generated id collide with a card's id, nothing changes and
    /// `IdInUse` is returned. A generated id has `GENERATED_ID_LEN` characters,
    /// so where no card id has that length the call succeeds on any lane.
    pub fn add_card(&mut self, lane_id: &String, name: String, description: String) -> (r: Result<
        String,
        BoardError,
    >)
        requires
            old(self).wf(),
        ensures
            final(self).wf(),
            final(self).name == old(self).name,
            final(self).drag == old(self).drag,
            final(self).dropped == old(self).dropped,
            !has_lane(old(self).lanes_view(), lane_id@) <==> r == Err::<String, BoardError>(
                BoardError::LaneNotFound,
            ),
            r matches Ok(id) ==> !card_in_use(old(self).lanes_view(), id@),
            match r {
                Ok(id) => final(self).lanes_view() == with_card(
                    old(self).lanes_view(),
                    lane_id@,
                    CardView {
                        id: id@,
                        lane_id: lane_id@,
                        name: name@,
                        description: description@,
                    },
                ),
                Err(e) => (e == BoardError::LaneNotFound || e == BoardError::IdInUse)
                    && *final(self) == *old(self),
            },
            r == Err::<String, BoardError>(BoardError::IdInUse) ==> exists|i: int, k: int|
                0 <= i < old(self).lanes_view().len() && 0 <= k < old(
                    self,
                ).lanes_view()[i].cards.len() && #[trigger] old(self).lanes_view()[i].cards[k].id.len()
                    == GENERATED_ID_LEN as nat,
    {
        if let None = self.find_lane_index(lane_id) {
            return Err(BoardError::LaneNotFound);
        }
        let id = random_id();
        match self.add_card_with_id(lane_id, id.clone(), name, description) {
            Ok(()) => Ok(id),
            Err(e) => Err(e),
        }
    }
}

impl BoardState {
    /// Replaces the name of the lane `lane_id`; fails with `LaneNotFound` if
    /// there is no such lane.
    pub fn rename_lane(&mut self, lane_id: &String, new_name: String) -> (r: Result<(), BoardError>)
        requires
            old(self).wf(),
        ensures
            final(self).wf(),
            final(self).name == old(self).name,
            final(self).drag == old(self).drag,
            final(self).dropped == old(self).dropped,
            r == if has_lane(old(self).lanes_view(), lane_id@) {
                Ok(())
            } else {
                Err(BoardError::LaneNotFound)
            },
            r is Err ==> *final(self) == *old(self),
            r is Ok ==> final(self).lanes_view() == renamed(
                old(self).lanes_view(),
                lane_id@,
                new_name@,
            ),
    {
        let li = match self.find_lane_index(lane_id) {
            Some(i) => i,
            None => return Err(BoardError::LaneNotFound),
        };
        let ghost lv = self.lanes_view();
        proof {
            assert(lane_index(lv, lane_id@) == li as int);
        }
        self.lanes[li].name = new_name;
        proof {
            let r = renamed(lv, lane_id@, new_name@);
            assert forall|i: int| 0 <= i < r.len() implies #[trigger] self.lanes_view()[i] == r[i] by {
                assert(self.lanes_view()[i].cards =~= r[i].cards);
            }
            assert(self.lanes_view() =~= r);
        }
        Ok(())
    }

    /// Replaces the name and description of the card `card_id`, wherever it
    /// stands; fails with `CardNotFound` if no lane holds such a card.
    pub fn update_card(&mut self, card_id: &String, new_name: String, new_description: String) -> (r:
        Result<(), BoardError>)
        requires
            old(self).wf(),
        ensures
            final(self).wf(),
            final(self).name == old(self).name,
            final(self).drag == old(self).drag,
            final(self).dropped == old(self).dropped,
            r == if card_in_use(old(self).lanes_view(), card_id@) {
                Ok(())
            } else {
                Err(BoardError::CardNotFound)
            },
            r is Err ==> *final(self) == *old(self),
            r is Ok ==> exists|i: int, k: int|
                0 <= i < old(self).lanes_view().len() && 0 <= k < old(
                    self,
                ).lanes_view()[i].cards.len() && #[trigger] old(self).lanes_view()[i].cards[k].id
                    == card_id@ && final(self).lanes_view() == edited(
                    old(self).lanes_view(),
                    i,
                    k,
                    new_name@,
                    new_description@,
                ),
    {
        let mut i: usize = 0;
        while i < self.lanes.len()
            invariant
                i <= self.lanes@.len(),
                *self == *old(self),
                self.wf(),
                forall|m: int| 0 <= m < i ==> !has_card(#[trigger] self.lanes_view()[m].cards, card_id@),
            decreases self.lanes@.len() - i,
        {
            if let Some(k) = find_card(&self.lanes[i].cards, card_id) {
                let ghost lv = self.lanes_view();
                self.lanes[i].cards[k].name = new_name;
                self.lanes[i].cards[k].description = new_description;
                proof {
                    let r = edited(lv, i as int, k as int, new_name@, new_description@);
                    assert forall|m: int| 0 <= m < r.len() implies #[trigger] self.lanes_view()[m]
                        == r[m] by {
                        assert(self.lanes_view()[m].cards =~= r[m].cards);
                    }
                    assert(self.lanes_view() =~= r);
                    assert(has_card(lv[i as int].cards, card_id@));
                    lemma_edited_wf(lv, i as int, k as int, new_name@, new_description@);
                }
                return Ok(());
            }
            i = i + 1;
        }
        Err(BoardError::CardNotFound)
    }

    /// The lane with id `lane_id`, if there is one.
    pub fn find_lane(&self, lane_id: &String) -> (r: Option<&Lane>)
        requires
            self.wf(),
        ensures
            match r {
                Some(l) => has_lane(self.lanes_view(), lane_id@) && *l == self.lanes@[lane_index(
                    self.lanes_view(),
                    lane_id@,
                )],
                None => !has_lane(self.lanes_view(), lane_id@),
            },
    {
        match self.find_lane_index(lane_id) {
            Some(i) => {
                assert(lane_index(self.lanes_view(), lane_id@) == i as int);
                Some(&self.lanes[i])
            },
            None => None,
        }
    }

    /// The card with id `card_id` in the lane `lane_id`, if that lane exists
    /// and holds it.
    pub fn find_card_in_lane(&self, lane_id: &String, card_id: &String) -> (r: Option<&Card>)
        requires
            self.wf(),
        ensures
            match r {
                Some(c) => {
                    let li = lane_index(self.lanes_view(), lane_id@);
                    &&& has_lane(self.lanes_view(), lane_id@)
                    &&& has_card(self.lanes_view()[li].cards, card_id@)
                    &&& *c == self.lanes@[li].cards@[card_index(
                        self.lanes_view()[li].cards,
                        card_id@,
                    )]
                },
                None => !has_lane(self.lanes_view(), lane_id@) || !has_card(
                    self.lanes_view()[lane_index(self.lanes_view(), lane_id@)].cards,
                    card_id@,
                ),
            },
    {
        let li = match self.find_lane_index(lane_id) {
            Some(i) => i,
            None => return None,
        };
        let ghost lv = self.lanes_view();
        assert(lane_index(lv, lane_id@) == li as int);
        match find_card(&self.lanes[li].cards, card_id) {
            Some(k) => {
                assert(card_index(lv[li as int].cards, card_id@) == k as int);
                Some(&self.lanes[li].cards[k])
            },
            None => None,
        }
    }

    /// Moves card `card_id` from lane `from_lane_id` to the end of lane
    /// `to_lane_id`, with its `lane_id` rewritten. Both lanes must exist and
    /// the source lane must hold the card.
    pub fn move_card(&mut self, card_id: &String, from_lane_id: &String, to_lane_id: &String)
        requires
            old(self).wf(),
            has_lane(old(self).lanes_view(), from_lane_id@),
            has_lane(old(self).lanes_view(), to_lane_id@),
            has_card(
                old(self).lanes_view()[lane_index(old(self).lanes_view(), from_lane_id@)].cards,
                card_id@,
            ),
        ensures
            final(self).wf(),
            final(self).name == old(self).name,
            final(self).drag == old(self).drag,
            final(self).dropped == old(self).dropped,
            final(self).lanes_view() == moved(
                old(self).lanes_view(),
                card_id@,
                from_lane_id@,
                to_lane_id@,
            ),
    {
        let ghost lv = self.lanes_view();
        let si = match self.find_lane_index(from_lane_id) {
            Some(i) => i,
            None => return ,
        };
        let ti = match self.find_lane_index(to_lane_id) {
            Some(i) => i,
            None => return ,
        };
        proof {
            assert(lane_index(lv, from_lane_id@) == si as int);
            assert(lane_index(lv, to_lane_id@) == ti as int);
        }
        let k = match find_card(&self.lanes[si].cards, card_id) {
            Some(k) => k,
            None => return ,
        };
        proof {
            assert(card_index(lv[si as int].cards, card_id@) == k as int);
            lemma_relocate_wf(lv, si as int, ti as int, k as int, to_lane_id@);
        }
        self.move_at(si, ti, k, to_lane_id);
    }
}

/// A new board session called `name`, seeded with the lanes "TODO" (id
/// `todo`) and "In Progress" (id `inprogress`), both empty, with no drag in
/// progress and no pending crossing.
#[allow(non_snake_case)]
pub fn Board(name: String) -> (r: BoardState)
    ensures
        r.wf(),
        r.name == name,
        r.drag.slot is None,
        r.dropped is None,
        r.lanes_view() == seq![
            LaneView { id: "todo"@, name: "TODO"@, cards: Seq::empty() },
            LaneView { id: "inprogress"@, name: "In Progress"@, cards: Seq::empty() },
        ],
{
    let todo = Lane::new("todo".to_string(), "TODO".to_string());
    let in_progress = Lane::new("inprogress".to_string(), "In Progress".to_string());
    let ghost (a, b) = (todo@, in_progress@);
    let mut lanes: Vec<Lane> = Vec::new();
    lanes.push(todo);
    lanes.push(in_progress);
    proof {
        reveal_strlit("todo");
        reveal_strlit("inprogress");
        assert(lanes_view(lanes@) =~= seq![a, b]);
        assert("todo"@[1] != "inprogress"@[1]);
    }
    BoardState { name, lanes, drag: DragCoordinator::new(), dropped: None }
}

impl BoardState {
    /// A drag gesture starts on card `card_id`, which stands in lane `lane_id`.
    pub fn start_drag(&mut self, card_id: String, lane_id: String)
        ensures
            final(self).drag.slot == Some(DraggedCard { card_id, from_lane_id: lane_id }),
            final(self).name == old(self).name,
            final(self).lanes == old(self).lanes,
            final(self).dropped == old(self).dropped,
    {
        self.drag.start_drag(card_id, lane_id);
    }

    /// The pointer enters lane `lane_id` while dragging: with a drag in
    /// progress, a crossing event from the dragged card's current lane to
    /// `lane_id` becomes pending; with none, nothing changes.
    pub fn signal_crossing(&mut self, lane_id: String)
        ensures
            final(self).dropped == match old(self).drag.slot {
                Some(d) => Some(
                    DroppedCardData {
                        card_id: d.card_id,
                        from_lane_id: d.from_lane_id,
                        to_lane_id: lane_id,
                    },
                ),
                None => old(self).dropped,
            },
            final(self).name == old(self).name,
            final(self).lanes == old(self).lanes,
            final(self).drag == old(self).drag,
    {
        if let Some(d) = self.drag.peek() {
            self.dropped = Some(
                DroppedCardData {
                    card_id: d.card_id,
                    from_lane_id: d.from_lane_id,
                    to_lane_id: lane_id,
                },
            );
        }
    }

    /// Runs the reconciler on the pending crossing event, if any. A pass that
    /// succeeds clears the event; one that fails leaves the whole board as it
    /// was. With no pending event nothing changes and `None` is returned.
    pub fn process_crossing(&mut self) -> (r: Option<Result<(), BoardError>>)
        requires
            old(self).wf(),
        ensures
            final(self).wf(),
            final(self).name == old(self).name,
            old(self).dropped is None ==> r is None && *final(self) == *old(self),
            old(self).dropped matches Some(data) ==> match crossing_error(
                old(self).lanes_view(),
                &data,
            ) {
                Some(e) => r == Some(Err::<(), BoardError>(e)) && *final(self) == *old(self),
                None => r == Some(Ok::<(), BoardError>(())) && final(self).dropped is None,
            },
            old(self).dropped matches Some(data) ==> crossing_error(old(self).lanes_view(), &data)
                is None ==> final(self).lanes_view() == moved(
                old(self).lanes_view(),
                data.card_id@,
                data.from_lane_id@,
                data.to_lane_id@,
            ),
            old(self).dropped matches Some(data) ==> crossing_error(old(self).lanes_view(), &data)
                is None ==> final(self).drag.slot == Some(
                DraggedCard { card_id: data.card_id, from_lane_id: data.to_lane_id },
            ),
    {
        let data = match &self.dropped {
            None => return None,
            Some(d) => DroppedCardData {
                card_id: d.card_id.clone(),
                from_lane_id: d.from_lane_id.clone(),
                to_lane_id: d.to_lane_id.clone(),
            },
        };
        let res = self.reconcile_crossing(&data);
        if res.is_ok() {
            self.dropped = None;
        }
        Some(res)
    }

    /// The card is released over a lane: the drag ends.
    pub fn drop_release(&mut self)
        ensures
            final(self).drag.slot is None,
            final(self).name == old(self).name,
            final(self).lanes == old(self).lanes,
            final(self).dropped == old(self).dropped,
    {
        self.drag.end_drag();
    }
}

} // verus!
