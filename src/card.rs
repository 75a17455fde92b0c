use vstd::prelude::*;

verus! {

/// The mathematical value of a card: its four text fields.
pub struct CardView {
    pub id: Seq<char>,
    pub lane_id: Seq<char>,
    pub name: Seq<char>,
    pub description: Seq<char>,
}

/// The mathematical value of a lane: its id, its name and its cards in
/// display order.
pub struct LaneView {
    pub id: Seq<char>,
    pub name: Seq<char>,
    pub cards: Seq<CardView>,
}

/// A unit of work. `lane_id` names the lane whose collection holds the card.
pub struct Card {
    pub lane_id: String,
    pub id: String,
    pub name: String,
    pub description: String,
}

/// A named, ordered container of cards; insertion order is display order.
pub struct Lane {
    pub id: String,
    pub name: String,
    pub cards: Vec<Card>,
}

impl View for Card {
    type V = CardView;

    open spec fn view(&self) -> CardView {
        CardView {
            id: self.id@,
            lane_id: self.lane_id@,
            name: self.name@,
            description: self.description@,
        }
    }
}

/// The views of a sequence of cards.
pub open spec fn cards_view(cards: Seq<Card>) -> Seq<CardView> {
    cards.map_values(|c: Card| c@)
}

impl View for Lane {
    type V = LaneView;

    open spec fn view(&self) -> LaneView {
        LaneView { id: self.id@, name: self.name@, cards: cards_view(self.cards@) }
    }
}

impl Card {
    /// A card with the given id, owning lane and name, and an empty description.
    pub fn new(id: String, lane_id: String, name: String) -> (r: Card)
        ensures
            r@ == (CardView { id: id@, lane_id: lane_id@, name: name@, description: Seq::empty() }),
    {
        Card { lane_id, id, name, description: String::new() }
    }

    /// The same card with its description replaced.
    pub fn with_description(self, description: String) -> (r: Card)
        ensures
            r@ == (CardView { description: description@, ..self@ }),
    {
        let mut card = self;
        card.description = description;
        card
    }
}

impl Lane {
    /// An empty lane with the given id and name.
    pub fn new(id: String, name: String) -> (r: Lane)
        ensures
            r@ == (LaneView { id: id@, name: name@, cards: Seq::empty() }),
    {
        let cards: Vec<Card> = Vec::new();
        proof {
            assert(cards_view(cards@) =~= Seq::<CardView>::empty());
        }
        Lane { id, name, cards }
    }
}

} // verus!
