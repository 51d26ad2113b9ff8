//! Rules engine for the board game Go: board state, legal placement,
//! capture resolution and the ko rule.

pub mod board;
pub mod game;
pub mod laws;
pub mod pos;
pub mod rules;
mod search;
pub mod stone;
pub mod tally;

pub use game::{Board, Game, GameState};
pub use pos::Pos;
pub use stone::Stone;
pub use tally::Captures;
