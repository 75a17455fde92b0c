//! A kanban board: lanes of cards, and the drag-and-drop protocol that moves
//! a card from one lane to another without losing or duplicating it.

pub mod board;
pub mod card;
pub mod drag;
mod ids;
pub mod laws;
pub mod model;

pub use board::{Board, BoardError, BoardState};
pub use card::{Card, CardView, Lane, LaneView};
pub use drag::{DragCoordinator, DraggedCard, DroppedCardData};
