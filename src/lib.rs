//! Rule engine for the Italian card game Scopa: cards and decks, the move
//! grammar, a single match, end-of-match scoring and the multi-match session.

pub mod card;
pub mod parse_move;
pub mod engine;
pub mod scoring;
pub mod session;

pub use card::{Card, CardNum, Deck, Suit, shuffle, shuffle_with};
pub use parse_move::{ParsedMove, parse_move_internal, parse_table_drop_move, parse_taking_move};
pub use engine::{Match, Move, MoveError, Player, Turn};
pub use scoring::{PointTally, has_full_napoli};
pub use session::{Game, PlayerKind, green_text, purple_text};
