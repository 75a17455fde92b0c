use kanban::{Board, BoardError, BoardState, Card, DragCoordinator, DraggedCard, DroppedCardData, Lane};

fn s(text: &str) -> String {
    text.to_string()
}

fn crossing(card: &str, from: &str, to: &str) -> DroppedCardData {
    DroppedCardData { card_id: s(card), from_lane_id: s(from), to_lane_id: s(to) }
}

fn card_ids(board: &BoardState, lane: usize) -> Vec<String> {
    board.lanes[lane].cards.iter().map(|c| c.id.clone()).collect()
}

/// Every card stands in exactly one place, in the lane its `lane_id` names.
fn assert_partition(board: &BoardState) {
    for lane in &board.lanes {
        for card in &lane.cards {
            assert_eq!(card.lane_id, lane.id);
            let places: usize = board
                .lanes
                .iter()
                .map(|l| l.cards.iter().filter(|c| c.id == card.id).count())
                .sum();
            assert_eq!(places, 1);
        }
    }
}

/// Lanes `a`, `b`, `c` (ids "a", "b", "c"); "a" holds cards "x" and "y".
fn three_lanes() -> BoardState {
    let mut board = Board(s("demo"));
    board.lanes.clear();
    for id in ["a", "b", "c"] {
        assert_eq!(board.add_lane_with_id(s(id), id.to_uppercase()), Ok(()));
    }
    assert_eq!(board.add_card_with_id(&s("a"), s("x"), s("X"), s("first")), Ok(()));
    assert_eq!(board.add_card_with_id(&s("a"), s("y"), s("Y"), s("second")), Ok(()));
    board
}

#[test]
fn board_starts_with_two_empty_lanes() {
    let board = Board(s("My board"));
    assert_eq!(board.name, "My board");
    assert_eq!(board.lanes.len(), 2);
    assert_eq!(board.lanes[0].id, "todo");
    assert_eq!(board.lanes[0].name, "TODO");
    assert_eq!(board.lanes[1].id, "inprogress");
    assert_eq!(board.lanes[1].name, "In Progress");
    assert!(board.lanes.iter().all(|l| l.cards.is_empty()));
    assert!(board.drag.slot.is_none());
    assert!(board.dropped.is_none());
}

#[test]
fn add_lane_then_add_card() {
    let mut board = Board(s("b"));
    let lane_id = board.add_lane(s("Review")).unwrap();
    assert_eq!(lane_id.len(), 36);
    assert_ne!(lane_id, "todo");
    assert_eq!(board.lanes.len(), 3);
    assert_eq!(board.lanes[2].id, lane_id);
    assert_eq!(board.lanes[2].name, "Review");
    let card_id = board.add_card(&lane_id, s("Task"), s("desc")).unwrap();
    assert_eq!(card_id.len(), 36);
    let lane = board.find_lane(&lane_id).unwrap();
    assert_eq!(lane.cards.len(), 1);
    assert_eq!(lane.cards[0].id, card_id);
    assert_eq!(lane.cards[0].name, "Task");
    assert_eq!(lane.cards[0].description, "desc");
    assert_eq!(lane.cards[0].lane_id, lane_id);
    assert_partition(&board);
}

#[test]
fn generated_ids_differ() {
    let mut board = Board(s("b"));
    let first = board.add_lane(s("One")).unwrap();
    let second = board.add_lane(s("Two")).unwrap();
    assert_ne!(first, second);
    let c1 = board.add_card(&first, s("a"), s("")).unwrap();
    let c2 = board.add_card(&first, s("b"), s("")).unwrap();
    assert_ne!(c1, c2);
    assert_partition(&board);
}

#[test]
fn add_card_to_unknown_lane_fails() {
    let mut board = Board(s("b"));
    assert_eq!(board.add_card(&s("nowhere"), s("Task"), s("desc")), Err(BoardError::LaneNotFound));
    assert!(board.lanes.iter().all(|l| l.cards.is_empty()));
    assert_eq!(
        board.add_card_with_id(&s("nowhere"), s("x"), s("Task"), s("desc")),
        Err(BoardError::LaneNotFound)
    );
    assert!(board.lanes.iter().all(|l| l.cards.is_empty()));
}

#[test]
fn duplicate_ids_are_refused() {
    let mut board = three_lanes();
    assert_eq!(board.add_lane_with_id(s("b"), s("again")), Err(BoardError::IdInUse));
    assert_eq!(board.lanes.len(), 3);
    assert_eq!(board.lanes[1].name, "B");
    assert_eq!(board.add_card_with_id(&s("c"), s("x"), s("dup"), s("")), Err(BoardError::IdInUse));
    assert!(board.lanes[2].cards.is_empty());
    assert!(board.card_id_in_use(&s("y")));
    assert!(!board.card_id_in_use(&s("z")));
}

#[test]
fn move_correctness() {
    let mut board = three_lanes();
    assert_eq!(board.reconcile_crossing(&crossing("x", "a", "b")), Ok(()));
    assert_eq!(card_ids(&board, 0), vec![s("y")]);
    assert_eq!(card_ids(&board, 1), vec![s("x")]);
    let moved = &board.lanes[1].cards[0];
    assert_eq!(moved.lane_id, "b");
    assert_eq!(moved.name, "X");
    assert_eq!(moved.description, "first");
    let slot = board.drag.slot.as_ref().unwrap();
    assert_eq!(slot.card_id, "x");
    assert_eq!(slot.from_lane_id, "b");
    assert_partition(&board);
}

#[test]
fn move_appends_to_target() {
    let mut board = three_lanes();
    assert_eq!(board.add_card_with_id(&s("b"), s("z"), s("Z"), s("")), Ok(()));
    board.move_card(&s("x"), &s("a"), &s("b"));
    assert_eq!(card_ids(&board, 0), vec![s("y")]);
    assert_eq!(card_ids(&board, 1), vec![s("z"), s("x")]);
    assert_eq!(board.lanes[1].cards[1].lane_id, "b");
    assert_partition(&board);
}

#[test]
fn move_within_one_lane_sends_card_to_end() {
    let mut board = three_lanes();
    assert_eq!(board.reconcile_crossing(&crossing("x", "a", "a")), Ok(()));
    assert_eq!(card_ids(&board, 0), vec![s("y"), s("x")]);
    assert_partition(&board);
}

#[test]
fn absent_card_is_a_no_op() {
    let mut board = three_lanes();
    assert_eq!(board.reconcile_crossing(&crossing("x", "a", "b")), Ok(()));
    // A late, stale signal for the same crossing.
    assert_eq!(
        board.reconcile_crossing(&crossing("x", "a", "b")),
        Err(BoardError::CardNotFoundInSourceLane)
    );
    assert_eq!(card_ids(&board, 0), vec![s("y")]);
    assert_eq!(card_ids(&board, 1), vec![s("x")]);
    assert_eq!(
        board.reconcile_crossing(&crossing("nothing", "a", "c")),
        Err(BoardError::CardNotFoundInSourceLane)
    );
    assert_eq!(card_ids(&board, 0), vec![s("y")]);
    assert!(board.lanes[2].cards.is_empty());
    assert_partition(&board);
}

#[test]
fn unknown_target_lane_changes_nothing() {
    let mut board = three_lanes();
    assert_eq!(
        board.reconcile_crossing(&crossing("x", "a", "nowhere")),
        Err(BoardError::TargetLaneNotFound)
    );
    assert_eq!(card_ids(&board, 0), vec![s("x"), s("y")]);
    assert!(board.lanes[1].cards.is_empty());
    assert!(board.lanes[2].cards.is_empty());
    assert!(board.drag.slot.is_none());
}

#[test]
fn unknown_source_lane_changes_nothing() {
    let mut board = three_lanes();
    assert_eq!(
        board.reconcile_crossing(&crossing("x", "nowhere", "b")),
        Err(BoardError::SourceLaneNotFound)
    );
    assert_eq!(card_ids(&board, 0), vec![s("x"), s("y")]);
    assert!(board.lanes[1].cards.is_empty());
    // Both lanes unknown: the source lane is looked up first.
    assert_eq!(
        board.reconcile_crossing(&crossing("x", "nowhere", "elsewhere")),
        Err(BoardError::SourceLaneNotFound)
    );
}

#[test]
fn multi_crossing_chain() {
    let mut board = three_lanes();
    board.start_drag(s("x"), s("a"));
    board.signal_crossing(s("b"));
    assert_eq!(board.process_crossing(), Some(Ok(())));
    assert!(board.dropped.is_none());
    board.signal_crossing(s("c"));
    let pending = board.dropped.as_ref().unwrap();
    assert_eq!(pending.from_lane_id, "b");
    assert_eq!(pending.to_lane_id, "c");
    assert_eq!(board.process_crossing(), Some(Ok(())));
    assert_eq!(card_ids(&board, 0), vec![s("y")]);
    assert!(board.lanes[1].cards.is_empty());
    assert_eq!(card_ids(&board, 2), vec![s("x")]);
    assert_eq!(board.lanes[2].cards[0].lane_id, "c");
    let slot = board.drag.slot.as_ref().unwrap();
    assert_eq!(slot.card_id, "x");
    assert_eq!(slot.from_lane_id, "c");
    assert_partition(&board);
    board.drop_release();
    assert!(board.drag.slot.is_none());
}

#[test]
fn failed_pass_keeps_the_pending_event() {
    let mut board = three_lanes();
    board.start_drag(s("x"), s("a"));
    board.signal_crossing(s("nowhere"));
    assert_eq!(board.process_crossing(), Some(Err(BoardError::TargetLaneNotFound)));
    assert_eq!(board.dropped.as_ref().unwrap().to_lane_id, "nowhere");
    assert_eq!(card_ids(&board, 0), vec![s("x"), s("y")]);
}

#[test]
fn nothing_pending_nothing_done() {
    let mut board = three_lanes();
    assert_eq!(board.process_crossing(), None);
    board.signal_crossing(s("b"));
    assert!(board.dropped.is_none());
    assert_eq!(board.process_crossing(), None);
    assert_eq!(card_ids(&board, 0), vec![s("x"), s("y")]);
}

#[test]
fn rename_lane_and_update_card() {
    let mut board = three_lanes();
    assert_eq!(board.rename_lane(&s("b"), s("Doing")), Ok(()));
    assert_eq!(board.lanes[1].name, "Doing");
    assert_eq!(board.rename_lane(&s("q"), s("Nope")), Err(BoardError::LaneNotFound));
    assert_eq!(board.update_card(&s("y"), s("Why"), s("changed")), Ok(()));
    assert_eq!(board.lanes[0].cards[1].name, "Why");
    assert_eq!(board.lanes[0].cards[1].description, "changed");
    assert_eq!(board.lanes[0].cards[0].name, "X");
    assert_eq!(board.update_card(&s("q"), s(""), s("")), Err(BoardError::CardNotFound));
    assert_partition(&board);
}

#[test]
fn lookups() {
    let board = three_lanes();
    assert_eq!(board.find_lane(&s("c")).unwrap().name, "C");
    assert!(board.find_lane(&s("d")).is_none());
    let card = board.find_card_in_lane(&s("a"), &s("y")).unwrap();
    assert_eq!(card.name, "Y");
    assert!(board.find_card_in_lane(&s("b"), &s("y")).is_none());
    assert!(board.find_card_in_lane(&s("d"), &s("y")).is_none());
}

#[test]
fn drag_coordinator() {
    let mut drag = DragCoordinator::new();
    assert!(drag.peek().is_none());
    drag.start_drag(s("x"), s("a"));
    let seen = drag.peek().unwrap();
    assert_eq!(seen.card_id, "x");
    assert_eq!(seen.from_lane_id, "a");
    drag.update_drag_location(s("other"), s("b"));
    let DraggedCard { card_id, from_lane_id } = drag.peek().unwrap();
    assert_eq!(card_id, "x");
    assert_eq!(from_lane_id, "b");
    drag.end_drag();
    assert!(drag.slot.is_none());
    drag.update_drag_location(s("y"), s("c"));
    assert_eq!(drag.slot.as_ref().unwrap().card_id, "y");
}

#[test]
fn card_and_lane_constructors() {
    let card = Card::new(s("id1"), s("lane1"), s("Name"));
    assert_eq!(card.description, "");
    let card = card.with_description(s("words"));
    assert_eq!(card.id, "id1");
    assert_eq!(card.lane_id, "lane1");
    assert_eq!(card.name, "Name");
    assert_eq!(card.description, "words");
    let lane = Lane::new(s("l"), s("Lane"));
    assert_eq!(lane.id, "l");
    assert_eq!(lane.name, "Lane");
    assert!(lane.cards.is_empty());
}

#[test]
fn chain_leaves_other_cards_in_place() {
    let mut board = three_lanes();
    assert_eq!(board.add_card_with_id(&s("b"), s("z"), s("Z"), s("")), Ok(()));
    assert_eq!(board.add_card_with_id(&s("c"), s("w"), s("W"), s("")), Ok(()));
    board.start_drag(s("x"), s("a"));
    board.signal_crossing(s("b"));
    assert_eq!(board.process_crossing(), Some(Ok(())));
    board.signal_crossing(s("c"));
    assert_eq!(board.process_crossing(), Some(Ok(())));
    assert_eq!(card_ids(&board, 0), vec![s("y")]);
    assert_eq!(card_ids(&board, 1), vec![s("z")]);
    assert_eq!(card_ids(&board, 2), vec![s("w"), s("x")]);
    assert_partition(&board);
}

#[test]
fn seeded_board_accepts_generated_ids() {
    let mut board = Board(s("b"));
    let lane = board.add_lane(s("Review")).unwrap();
    assert!(board.add_card(&lane, s("Task"), s("desc")).is_ok());
    assert!(board.add_card(&s("todo"), s("Other"), s("")).is_ok());
    assert_eq!(board.lanes[0].cards.len(), 1);
    assert_eq!(board.lanes[2].cards.len(), 1);
    assert_partition(&board);
}
