//! A seat at the table: a chip stack that lasts the session and the betting
//! state of the current hand.

use vstd::prelude::*;

use crate::card::Card;
use crate::error::PokerError;

verus! {

/// What a player is, as the contracts see it.
pub struct PlayerView {
    pub name: Seq<char>,
    pub chips: u64,
    pub hole_cards: Seq<Card>,
    pub current_bet: u64,
    pub folded: bool,
    pub all_in: bool,
    pub acted: bool,
}

/// A player: a named stack, the hole cards and the bet of the current street.
#[derive(Clone)]
pub struct Player {
    name: String,
    chips: u64,
    hole_cards: Vec<Card>,
    current_bet: u64,
    folded: bool,
    all_in: bool,
    acted: bool,
}

impl View for Player {
    type V = PlayerView;

    closed spec fn view(&self) -> PlayerView {
        PlayerView {
            name: self.name@,
            chips: self.chips,
            hole_cards: self.hole_cards@,
            current_bet: self.current_bet,
            folded: self.folded,
            all_in: self.all_in,
            acted: self.acted,
        }
    }
}

/// The player after a successful `bet` of `amount`.
pub open spec fn after_bet(p: PlayerView, amount: u64) -> PlayerView {
    PlayerView {
        chips: (p.chips - amount) as u64,
        current_bet: (p.current_bet + amount) as u64,
        all_in: p.all_in || p.chips == amount,
        acted: true,
        ..p
    }
}

impl Player {
    #[must_use]
    pub fn new(name: String, chips: u64) -> (p: Player)
        ensures
            p@ == (PlayerView {
                name: name@,
                chips,
                hole_cards: Seq::empty(),
                current_bet: 0,
                folded: false,
                all_in: false,
                acted: false,
            }),
    {
        Player {
            name,
            chips,
            hole_cards: Vec::with_capacity(2),
            current_bet: 0,
            folded: false,
            all_in: false,
            acted: false,
        }
    }

    /// Adds the cards, in order, after any already held.
    pub fn receive_cards(&mut self, cards: Vec<Card>)
        ensures
            final(self)@ == (PlayerView { hole_cards: old(self)@.hole_cards + cards@, ..old(self)@ }),
    {
        let mut cards = cards;
        self.hole_cards.append(&mut cards);
    }

    /// Moves `amount` from the stack to this street's bet and marks the player
    /// as having acted; all-in when the stack runs out.
    pub fn bet(&mut self, amount: u64) -> (r: Result<u64, PokerError>)
        requires
            amount <= old(self)@.chips ==> old(self)@.current_bet + amount <= u64::MAX,
        ensures
            amount > old(self)@.chips ==> r == Err::<u64, PokerError>(PokerError::InsufficientChips)
                && final(self)@ == old(self)@,
            amount <= old(self)@.chips ==> r == Ok::<u64, PokerError>(amount) && final(self)@
                == after_bet(old(self)@, amount),
    {
        if amount > self.chips {
            return Err(PokerError::InsufficientChips);
        }
        self.chips = self.chips - amount;
        self.current_bet = self.current_bet + amount;
        if self.chips == 0 {
            self.all_in = true;
        }
        self.acted = true;
        Ok(amount)
    }

    /// Adds winnings to the stack.
    pub fn collect_pot(&mut self, amount: u64)
        requires
            old(self)@.chips + amount <= u64::MAX,
        ensures
            final(self)@ == (PlayerView { chips: (old(self)@.chips + amount) as u64, ..old(self)@ }),
    {
        self.chips = self.chips + amount;
    }

    /// Clears the cards, the bet and the flags; the name and stack stay.
    pub fn reset_for_new_hand(&mut self)
        ensures
            final(self)@ == (PlayerView {
                hole_cards: Seq::empty(),
                current_bet: 0,
                folded: false,
                all_in: false,
                acted: false,
                ..old(self)@
            }),
    {
        self.hole_cards.clear();
        self.current_bet = 0;
        self.folded = false;
        self.all_in = false;
        self.acted = false;
    }

    /// Opens a new street: no bet in front of the player and no action yet.
    pub fn reset_for_new_street(&mut self)
        ensures
            final(self)@ == (PlayerView { current_bet: 0, acted: false, ..old(self)@ }),
    {
        self.current_bet = 0;
        self.acted = false;
    }

    #[must_use]
    pub fn get_name(&self) -> (s: &str)
        ensures
            s@ == self@.name,
    {
        self.name.as_str()
    }

    #[must_use]
    pub fn get_chips(&self) -> (c: u64)
        ensures
            c == self@.chips,
    {
        self.chips
    }

    #[must_use]
    pub fn get_current_bet(&self) -> (b: u64)
        ensures
            b == self@.current_bet,
    {
        self.current_bet
    }

    #[must_use]
    pub fn is_folded(&self) -> (b: bool)
        ensures
            b == self@.folded,
    {
        self.folded
    }

    pub fn set_folded(&mut self, folded: bool)
        ensures
            final(self)@ == (PlayerView { folded, ..old(self)@ }),
    {
        self.folded = folded;
    }

    #[must_use]
    pub fn is_all_in(&self) -> (b: bool)
        ensures
            b == self@.all_in,
    {
        self.all_in
    }

    #[must_use]
    pub fn has_acted(&self) -> (b: bool)
        ensures
            b == self@.acted,
    {
        self.acted
    }

    pub fn set_has_acted(&mut self, acted: bool)
        ensures
            final(self)@ == (PlayerView { acted, ..old(self)@ }),
    {
        self.acted = acted;
    }

    #[must_use]
    pub fn get_hole_cards(&self) -> (s: &[Card])
        ensures
            s@ == self@.hole_cards,
    {
        self.hole_cards.as_slice()
    }
}

} // verus!
