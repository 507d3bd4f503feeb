//! The typed failures of the engine.

use vstd::prelude::*;

verus! {

/// Why an operation was refused; a refused operation changes nothing.
#[derive(Clone, Copy, PartialEq, Eq, Structural, Debug)]
pub enum PokerError {
    /// A bet larger than the player's stack.
    InsufficientChips,
    /// Fewer than two players can cover the minimum stack for a hand.
    InsufficientPlayers,
    /// No hand is waiting for a player's action.
    NoPendingAction,
    /// The seat to act has folded or is all-in.
    PlayerCannotAct,
    /// A check while the player has not matched the amount to call.
    IllegalCheck,
    /// A bet while a bet is already open.
    UseRaiseInstead,
    /// A raise that does not lift the amount to call, or with no bet to raise.
    RaiseTooSmall,
    /// The deck cannot supply the cards the hand needs.
    DealFailure,
    /// A new hand was asked for while one is still being played.
    HandInProgress,
}

/// The description of each failure.
pub open spec fn error_text(e: PokerError) -> Seq<char> {
    match e {
        PokerError::InsufficientChips => "Insufficient chips"@,
        PokerError::InsufficientPlayers => "Not enough players with sufficient chips"@,
        PokerError::NoPendingAction => "No pending action"@,
        PokerError::PlayerCannotAct => "Player cannot act"@,
        PokerError::IllegalCheck => "Cannot check when a bet is pending"@,
        PokerError::UseRaiseInstead => "Use Raise action instead of Bet when a bet is pending"@,
        PokerError::RaiseTooSmall => "Raise must be greater than current bet"@,
        PokerError::DealFailure => "Failed to deal cards"@,
        PokerError::HandInProgress => "A hand is already in progress"@,
    }
}

impl PokerError {
    /// A short human-readable description.
    #[must_use]
    pub fn message(&self) -> (m: &'static str)
        ensures
            m@ == error_text(*self),
    {
        match self {
            PokerError::InsufficientChips => "Insufficient chips",
            PokerError::InsufficientPlayers => "Not enough players with sufficient chips",
            PokerError::NoPendingAction => "No pending action",
            PokerError::PlayerCannotAct => "Player cannot act",
            PokerError::IllegalCheck => "Cannot check when a bet is pending",
            PokerError::UseRaiseInstead => "Use Raise action instead of Bet when a bet is pending",
            PokerError::RaiseTooSmall => "Raise must be greater than current bet",
            PokerError::DealFailure => "Failed to deal cards",
            PokerError::HandInProgress => "A hand is already in progress",
        }
    }
}

} // verus!
