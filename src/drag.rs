use vstd::prelude::*;

verus! {

/// A drag gesture in progress: the card it is anchored at, and the lane that
/// currently holds that card.
pub struct DraggedCard {
    pub card_id: String,
    pub from_lane_id: String,
}

/// A crossing event: the dragged card, last known in `from_lane_id`, now
/// hovers over `to_lane_id`.
pub struct DroppedCardData {
    pub card_id: String,
    pub from_lane_id: String,
    pub to_lane_id: String,
}

/// The shared slot that records which card is being dragged, if any.
pub struct DragCoordinator {
    pub slot: Option<DraggedCard>,
}

impl DragCoordinator {
    /// A coordinator with no drag in progress.
    pub fn new() -> (r: DragCoordinator)
        ensures
            r.slot is None,
    {
        DragCoordinator { slot: None }
    }

    /// Records that a drag of `card_id` starts in `from_lane_id`.
    pub fn start_drag(&mut self, card_id: String, from_lane_id: String)
        ensures
            final(self).slot == Some(DraggedCard { card_id, from_lane_id }),
    {
        self.slot = Some(DraggedCard { card_id, from_lane_id });
    }

    /// Records the card's new lane after a move, keeping the dragged card's
    /// id; with no drag in progress the slot becomes a drag of `card_id` in
    /// `new_lane_id`.
    pub fn update_drag_location(&mut self, card_id: String, new_lane_id: String)
        ensures
            final(self).slot == Some(
                DraggedCard {
                    card_id: match old(self).slot {
                        Some(d) => d.card_id,
                        None => card_id,
                    },
                    from_lane_id: new_lane_id,
                },
            ),
    {
        let kept = match self.slot.take() {
            Some(d) => d.card_id,
            None => card_id,
        };
        self.slot = Some(DraggedCard { card_id: kept, from_lane_id: new_lane_id });
    }

    /// Ends the drag in progress, if any.
    pub fn end_drag(&mut self)
        ensures
            final(self).slot is None,
    {
        self.slot = None;
    }

    /// The drag in progress, without changing it.
    pub fn peek(&self) -> (r: Option<DraggedCard>)
        ensures
            r == self.slot,
    {
        match &self.slot {
            Some(d) => Some(
                DraggedCard { card_id: d.card_id.clone(), from_lane_id: d.from_lane_id.clone() },
            ),
            None => None,
        }
    }
}

} // verus!
