//! Single-player five-card draw poker: cards, the deck, hand scoring and the
//! round state machine, each with its contract.

pub mod card;
pub mod deck;
pub mod hand;
pub mod session;

pub use card::{Card, GameError};
pub use deck::{change_cards, deal, draw_hand, generate_deck, reset_deck};
pub use hand::{check_hand, straight};
pub use session::GameSession;
