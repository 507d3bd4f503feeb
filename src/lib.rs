//! Rules engine for heads-up Texas Hold'em: cards and decks, a best-of-seven
//! hand evaluator, and a betting state machine that keeps every chip accounted for.

use vstd::prelude::*;

pub mod card;
pub mod deck;
pub mod error;
pub mod evaluator;
pub mod game;
pub mod player;
pub mod rules;

pub use card::{Card, Suit};
pub use deck::Deck;
pub use error::PokerError;
pub use evaluator::{EvaluatedHand, HandRank, PokerHandEvaluator};
pub use game::PokerGameState;
pub use rules::{GameStage, PlayerAction};
pub use player::Player;

verus! {

/// Forced bet posted by the seat after the dealer.
pub const SMALL_BLIND_CHIPS: u64 = 10;

/// Forced bet posted two seats after the dealer.
pub const BIG_BLIND_CHIPS: u64 = 20;

/// Stack each player starts the session with.
pub const INITIAL_CHIPS: u64 = 10000;

/// Smallest stack with which a player may be dealt into a hand.
pub const MIN_CHIPS_TO_CONTINUE: u64 = 10;

/// Opening bet size before the first hand.
pub const MIN_BET_DEFAULT: u64 = 20;

/// Opening upper bound for the bet size before the first hand.
pub const MAX_BET_DEFAULT: u64 = 500;

/// Factor applied to `MAX_BET_DEFAULT` to get the ceiling of any bet.
pub const MAX_BET_MULTIPLIER: u64 = 100;

/// Bet size selected before the first hand.
pub const CALL_AMOUNT_DEFAULT: u64 = 50;

/// Seats at the table.
pub const NUM_PLAYERS: usize = 2;

} // verus!
