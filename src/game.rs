//! The engine: a table of two that deals hands, takes actions in turn,
//! moves chips between stacks and pot, and settles each hand.

use std::cmp::Ordering;
use vstd::prelude::*;

use crate::card::Card;
use crate::deck::{distinct_valid, full_deck, lemma_full_deck, lemma_reorder_keeps_distinct_valid, Deck};
use crate::error::PokerError;
use crate::evaluator::{all_valid, lemma_hand_cmp_order, PokerHandEvaluator};
use crate::player::{after_bet, Player, PlayerView};
use crate::rules::{
    action_error, action_message, advance_street, advance_turn, after_action, apply_action,
    board_size, can_act, cards_in_play, cards_needed, cards_valid, clamp, count_active,
    count_betting, count_funded, count_winners, deal_street, dealt_in, decimal, digit_char,
    end_hand, first_active, first_winner, hand_of, is_betting_street, is_winner,
    lemma_action_keeps_cards, lemma_action_mid_wf, lemma_opened_mid_wf, lemma_start_keeps_cards,
    lemma_two_seats, mid_wf, new_street, opened_hand, owed, reopen, run_out, seek, settle,
    showdown, showdown_ready, stage_name, start_error, start_hand, street_closed, streets_left, wf,
    with_bounds, GameStage, GameView, PlayerAction,
};
use crate::{BIG_BLIND_CHIPS, CALL_AMOUNT_DEFAULT, INITIAL_CHIPS, MAX_BET_DEFAULT, MAX_BET_MULTIPLIER};
use crate::{MIN_BET_DEFAULT, MIN_CHIPS_TO_CONTINUE, NUM_PLAYERS, SMALL_BLIND_CHIPS};

verus! {

/// A table of two players and the hand being played on it.
#[derive(Clone)]
pub struct PokerGameState {
    deck: Deck,
    players: Vec<Player>,
    community_cards: Vec<Card>,
    burned_cards: Ghost<Seq<Card>>,
    pot: u64,
    stage: GameStage,
    dealer_position: usize,
    current_player: usize,
    to_call: u64,
    pending_action: bool,
    bet_amount: u64,
    min_bet: u64,
    max_bet: u64,
    pot_odds_num: u64,
    pot_odds_den: u64,
}

impl View for PokerGameState {
    type V = GameView;

    closed spec fn view(&self) -> GameView {
        GameView {
            deck: self.deck@,
            players: self.players@.map_values(|p: Player| p@),
            community: self.community_cards@,
            burned: self.burned_cards@,
            pot: self.pot,
            stage: self.stage,
            dealer: self.dealer_position,
            current: self.current_player,
            to_call: self.to_call,
            pending: self.pending_action,
            bet_amount: self.bet_amount,
            min_bet: self.min_bet,
            max_bet: self.max_bet,
            pot_odds: (self.pot_odds_num, self.pot_odds_den),
        }
    }
}

/// A player at the start of the session.
pub open spec fn seated(name: Seq<char>) -> PlayerView {
    PlayerView {
        name,
        chips: INITIAL_CHIPS,
        hole_cards: Seq::empty(),
        current_bet: 0,
        folded: false,
        all_in: false,
        acted: false,
    }
}

/// The amount the seat to act must add to match the bet: `to_call` less its bet, never negative.
pub open spec fn call_amount(s: GameView) -> u64 {
    owed(s)
}

/// The share of the pot, after calling, that the call costs, as numerator and
/// denominator; `(0, 1)` when there is nothing to call.
pub open spec fn pot_odds_of(s: GameView) -> (u64, u64) {
    let c = owed(s);
    let total: u64 = if s.pot + c <= u64::MAX {
        (s.pot + c) as u64
    } else {
        u64::MAX
    };
    if c > 0 && total > 0 {
        (c, total)
    } else {
        (0, 1)
    }
}

impl Default for PokerGameState {
    fn default() -> (g: PokerGameState)
        ensures
            wf(g@),
            g@.stage == GameStage::WaitingToStart,
    {
        PokerGameState::new()
    }
}

impl PokerGameState {
    /// Alice and Bob with the initial stacks, waiting for the first hand.
    #[must_use]
    pub fn new() -> (g: PokerGameState)
        ensures
            wf(g@),
            g@.players == seq![seated("Alice"@), seated("Bob"@)],
            g@.stage == GameStage::WaitingToStart,
            g@.pot == 0,
            g@.community.len() == 0,
            g@.deck.to_multiset() == full_deck().to_multiset(),
            g@.dealer == 0,
            g@.current == 0,
            g@.to_call == 0,
            !g@.pending,
            g@.bet_amount == CALL_AMOUNT_DEFAULT,
            g@.min_bet == MIN_BET_DEFAULT,
            g@.max_bet == MAX_BET_DEFAULT,
            g@.pot_odds == (0u64, 1u64),
    {
        let mut deck = Deck::new();
        deck.shuffle();
        proof {
            lemma_full_deck();
            lemma_reorder_keeps_distinct_valid(full_deck(), deck@);
        }
        let mut players: Vec<Player> = Vec::with_capacity(NUM_PLAYERS);
        players.push(Player::new(String::from_str("Alice"), INITIAL_CHIPS));
        players.push(Player::new(String::from_str("Bob"), INITIAL_CHIPS));
        let g = PokerGameState {
            deck,
            players,
            community_cards: Vec::with_capacity(5),
            burned_cards: Ghost(Seq::empty()),
            pot: 0,
            stage: GameStage::WaitingToStart,
            dealer_position: 0,
            current_player: 0,
            to_call: 0,
            pending_action: false,
            bet_amount: CALL_AMOUNT_DEFAULT,
            min_bet: MIN_BET_DEFAULT,
            max_bet: MAX_BET_DEFAULT,
            pot_odds_num: 0,
            pot_odds_den: 1,
        };
        proof {
            assert(g@.players =~= seq![seated("Alice"@), seated("Bob"@)]);
            lemma_two_seats(g@.players);
        }
        g
    }

    #[must_use]
    pub fn get_stage(&self) -> (st: GameStage)
        ensures
            st == self@.stage,
    {
        self.stage
    }

    /// The stage's display name.
    #[must_use]
    pub fn get_stage_string(&self) -> (s: &'static str)
        ensures
            s@ == stage_name(self@.stage),
    {
        match self.stage {
            GameStage::Preflop => "Preflop",
            GameStage::Flop => "Flop",
            GameStage::Turn => "Turn",
            GameStage::River => "River",
            GameStage::Showdown => "Showdown",
            GameStage::HandComplete => "Complete",
            GameStage::WaitingToStart => "Waiting",
        }
    }

    #[must_use]
    pub fn get_pot(&self) -> (p: u64)
        ensures
            p == self@.pot,
    {
        self.pot
    }

    #[must_use]
    pub fn get_players(&self) -> (ps: &[Player])
        ensures
            ps@.map_values(|p: Player| p@) == self@.players,
    {
        self.players.as_slice()
    }

    #[must_use]
    pub fn get_community_cards(&self) -> (cs: &[Card])
        ensures
            cs@ == self@.community,
    {
        self.community_cards.as_slice()
    }

    #[must_use]
    pub fn get_dealer_position(&self) -> (d: usize)
        ensures
            d == self@.dealer,
    {
        self.dealer_position
    }

    #[must_use]
    pub fn get_to_call(&self) -> (t: u64)
        ensures
            t == self@.to_call,
    {
        self.to_call
    }

    #[must_use]
    pub fn get_bet_amount(&self) -> (b: u64)
        ensures
            b == self@.bet_amount,
    {
        self.bet_amount
    }

    #[must_use]
    pub fn get_min_bet(&self) -> (b: u64)
        ensures
            b == self@.min_bet,
    {
        self.min_bet
    }

    #[must_use]
    pub fn get_max_bet(&self) -> (b: u64)
        ensures
            b == self@.max_bet,
    {
        self.max_bet
    }

    /// Cards left in the deck.
    #[must_use]
    pub fn deck_len(&self) -> (n: usize)
        ensures
            n == self@.deck.len(),
    {
        self.deck.len()
    }

    #[must_use]
    pub fn is_pending_action(&self) -> (b: bool)
        ensures
            b == self@.pending,
    {
        self.pending_action
    }

    #[must_use]
    pub fn get_current_player(&self) -> (i: usize)
        ensures
            i == self@.current,
    {
        self.current_player
    }

    /// Stores a bet size for later bets and raises, clamped into the current bounds.
    pub fn set_bet_amount(&mut self, amount: u64)
        ensures
            final(self)@ == (GameView {
                bet_amount: clamp(amount, old(self)@.min_bet, old(self)@.max_bet),
                ..old(self)@
            }),
    {
        let mut v = amount;
        if v < self.min_bet {
            v = self.min_bet;
        }
        if v > self.max_bet {
            v = self.max_bet;
        }
        self.bet_amount = v;
    }

    /// The seat to act has not folded and has matched the amount to call.
    #[must_use]
    pub fn can_check(&self) -> (b: bool)
        requires
            wf(self@),
        ensures
            b == (!self@.players[self@.current as int].folded && self@.players[self@.current as int].current_bet
                == self@.to_call),
    {
        let p = &self.players[self.current_player];
        !p.is_folded() && p.get_current_bet() == self.to_call
    }

    /// The seat to act has chips and is short of the amount to call.
    #[must_use]
    pub fn can_call(&self) -> (b: bool)
        requires
            wf(self@),
        ensures
            b == ({
                let p = self@.players[self@.current as int];
                !p.folded && p.chips > 0 && p.current_bet < self@.to_call
            }),
    {
        let p = &self.players[self.current_player];
        !p.is_folded() && p.get_chips() > 0 && p.get_current_bet() < self.to_call
    }

    /// The seat to act has chips and no bet is open.
    #[must_use]
    pub fn can_bet(&self) -> (b: bool)
        requires
            wf(self@),
        ensures
            b == ({
                let p = self@.players[self@.current as int];
                !p.folded && p.chips > 0 && self@.to_call == 0
            }),
    {
        let p = &self.players[self.current_player];
        !p.is_folded() && p.get_chips() > 0 && self.to_call == 0
    }

    /// The seat to act has chips, a bet is open, and its bet is below the
    /// amount to call plus the minimum bet.
    #[must_use]
    pub fn can_raise(&self) -> (b: bool)
        requires
            wf(self@),
        ensures
            b == ({
                let p = self@.players[self@.current as int];
                !p.folded && p.chips > 0 && self@.to_call > 0 && p.current_bet < self@.to_call
                    + self@.min_bet
            }),
    {
        let p = &self.players[self.current_player];
        !p.is_folded() && p.get_chips() > 0 && self.to_call > 0 && (p.get_current_bet() as u128)
            < (self.to_call as u128) + (self.min_bet as u128)
    }

    /// The seat to act has not folded.
    #[must_use]
    pub fn can_fold(&self) -> (b: bool)
        requires
            wf(self@),
        ensures
            b == !self@.players[self@.current as int].folded,
    {
        !self.players[self.current_player].is_folded()
    }

    /// What the seat to act must add to match the bet.
    #[must_use]
    pub fn get_call_amount(&self) -> (c: u64)
        requires
            wf(self@),
        ensures
            c == call_amount(self@),
    {
        let cb = self.players[self.current_player].get_current_bet();
        if self.to_call > cb {
            self.to_call - cb
        } else {
            0
        }
    }

    /// Recomputes the pot odds of the seat to act.
    pub fn update_pot_odds(&mut self)
        requires
            wf(old(self)@),
        ensures
            final(self)@ == (GameView { pot_odds: pot_odds_of(old(self)@), ..old(self)@ }),
    {
        let c = self.get_call_amount();
        let total = self.pot.saturating_add(c);
        if c > 0 && total > 0 {
            self.pot_odds_num = c;
            self.pot_odds_den = total;
        } else {
            self.pot_odds_num = 0;
            self.pot_odds_den = 1;
        }
    }

    /// The pot odds last computed, as numerator and denominator.
    #[must_use]
    pub fn get_pot_odds(&self) -> (o: (u64, u64))
        ensures
            o == self@.pot_odds,
    {
        (self.pot_odds_num, self.pot_odds_den)
    }
}

fn digit_str(d: u64) -> (s: &'static str)
    requires
        d < 10,
    ensures
        s@ == seq![digit_char(d as nat)],
{
    proof {
        reveal_strlit("0");
        reveal_strlit("1");
        reveal_strlit("2");
        reveal_strlit("3");
        reveal_strlit("4");
        reveal_strlit("5");
        reveal_strlit("6");
        reveal_strlit("7");
        reveal_strlit("8");
        reveal_strlit("9");
    }
    let s = match d {
        0 => "0",
        1 => "1",
        2 => "2",
        3 => "3",
        4 => "4",
        5 => "5",
        6 => "6",
        7 => "7",
        8 => "8",
        _ => "9",
    };
    assert(s@ =~= seq![digit_char(d as nat)]);
    s
}

/// Appends the decimal numeral of `n`.
fn append_decimal(s: &mut String, n: u64)
    ensures
        final(s)@ == old(s)@ + decimal(n as nat),
    decreases n,
{
    if n >= 10 {
        append_decimal(s, n / 10);
    }
    s.append(digit_str(n % 10));
    proof {
        if n >= 10 {
            assert(old(s)@ + decimal((n / 10) as nat) + seq![digit_char((n % 10) as nat)] =~= old(s)@
                + decimal(n as nat));
        } else {
            assert(old(s)@ + seq![digit_char((n % 10) as nat)] =~= old(s)@ + decimal(n as nat));
        }
    }
}

proof fn lemma_all_valid_concat(a: Seq<Card>, b: Seq<Card>)
    requires
        all_valid(a),
        all_valid(b),
    ensures
        all_valid(a + b),
{
    assert forall|i: int| 0 <= i < (a + b).len() implies (#[trigger] (a + b)[i]).valid() by {
        if i < a.len() {
            assert((a + b)[i] == a[i]);
        } else {
            assert((a + b)[i] == b[i - a.len()]);
        }
    }
}

impl PokerGameState {
    /// The seat reached from `from` by moving round the table, at most once
    /// round, to the first seat that can act.
    fn next_able_seat(&self, from: usize) -> (r: usize)
        requires
            self@.players.len() == NUM_PLAYERS,
            from < NUM_PLAYERS,
        ensures
            r == seek(self@.players, from as int, NUM_PLAYERS as nat),
            r < NUM_PLAYERS,
    {
        let n = self.players.len();
        let mut cur = from;
        let mut attempts: usize = 0;
        let mut found = false;
        while attempts < n && !found
            invariant
                n == self@.players.len(),
                n == NUM_PLAYERS,
                cur < n,
                attempts <= n,
                !found ==> seek(self@.players, from as int, n as nat) == seek(
                    self@.players,
                    cur as int,
                    (n - attempts) as nat,
                ),
                found ==> seek(self@.players, from as int, n as nat) == cur,
            decreases (n - attempts) * 2 + if found {
                0int
            } else {
                1int
            },
        {
            cur = (cur + 1) % n;
            let p = &self.players[cur];
            if p.is_folded() || p.is_all_in() {
                attempts = attempts + 1;
            } else {
                found = true;
            }
        }
        cur
    }

    fn count_active_players(&self) -> (c: usize)
        ensures
            c == count_active(self@.players),
    {
        let n = self.players.len();
        let ghost ps = self@.players;
        let mut c: usize = 0;
        let mut i: usize = 0;
        while i < n
            invariant
                n == ps.len(),
                ps == self@.players,
                i <= n,
                c <= i,
                c == count_active(ps.take(i as int)),
            decreases n - i,
        {
            assert(ps.take(i + 1).drop_last() =~= ps.take(i as int));
            if !self.players[i].is_folded() {
                c = c + 1;
            }
            i = i + 1;
        }
        assert(ps.take(n as int) =~= ps);
        c
    }

    fn count_betting_players(&self) -> (c: usize)
        ensures
            c == count_betting(self@.players),
    {
        let n = self.players.len();
        let ghost ps = self@.players;
        let mut c: usize = 0;
        let mut i: usize = 0;
        while i < n
            invariant
                n == ps.len(),
                ps == self@.players,
                i <= n,
                c <= i,
                c == count_betting(ps.take(i as int)),
            decreases n - i,
        {
            assert(ps.take(i + 1).drop_last() =~= ps.take(i as int));
            if !self.players[i].is_folded() && !self.players[i].is_all_in() {
                c = c + 1;
            }
            i = i + 1;
        }
        assert(ps.take(n as int) =~= ps);
        c
    }

    fn first_active_player(&self) -> (w: usize)
        ensures
            w == first_active(self@.players, 0),
    {
        let n = self.players.len();
        let mut i: usize = 0;
        while i < n
            invariant
                n == self@.players.len(),
                i <= n,
                first_active(self@.players, 0) == first_active(self@.players, i as int),
            decreases n - i,
        {
            if !self.players[i].is_folded() {
                return i;
            }
            i = i + 1;
        }
        n
    }

    fn street_is_closed(&self) -> (b: bool)
        ensures
            b == street_closed(self@),
    {
        let n = self.players.len();
        let mut i: usize = 0;
        while i < n
            invariant
                n == self@.players.len(),
                i <= n,
                forall|j: int|
                    0 <= j < i && can_act(#[trigger] self@.players[j]) ==> self@.players[j].acted
                        && self@.players[j].current_bet == self@.to_call,
            decreases n - i,
        {
            let p = &self.players[i];
            if !p.is_folded() && !p.is_all_in() && (!p.has_acted() || p.get_current_bet()
                != self.to_call) {
                assert(can_act(self@.players[i as int]));
                return false;
            }
            i = i + 1;
        }
        true
    }

    fn end_hand(&mut self)
        requires
            old(self)@.players.len() == NUM_PLAYERS,
            old(self)@.dealer < NUM_PLAYERS,
        ensures
            final(self)@ == end_hand(old(self)@),
    {
        self.stage = GameStage::HandComplete;
        self.dealer_position = (self.dealer_position + 1) % self.players.len();
        self.pending_action = false;
    }

    /// Bet sizing for the seat to act.
    fn update_action_bounds(&mut self)
        requires
            old(self)@.current < old(self)@.players.len(),
        ensures
            final(self)@ == with_bounds(old(self)@),
    {
        let current_call = self.to_call;
        let player_chips = self.players[self.current_player].get_chips();
        self.min_bet = if current_call == 0 {
            BIG_BLIND_CHIPS
        } else if current_call <= u64::MAX / 2 {
            current_call * 2
        } else {
            u64::MAX
        };
        let ceiling = MAX_BET_DEFAULT * MAX_BET_MULTIPLIER;
        self.max_bet = if player_chips < ceiling {
            player_chips
        } else {
            ceiling
        };
        if self.bet_amount < self.min_bet {
            self.bet_amount = self.min_bet;
        }
        if self.bet_amount > self.max_bet {
            self.bet_amount = self.max_bet;
        }
    }

    /// Burns a card, then moves `count` cards from the top of the deck to the board.
    fn deal_community_cards(&mut self, count: usize)
        requires
            old(self)@.deck.len() >= count + 1,
        ensures
            final(self)@ == deal_street(old(self)@, count as int, old(self)@.stage),
    {
        let _ = self.deck.burn();
        self.burned_cards = Ghost(self.burned_cards@.push(old(self)@.deck.last()));
        if let Some(cards) = self.deck.deal(count) {
            let mut cards = cards;
            self.community_cards.append(&mut cards);
        }
    }

    /// Opens betting at the first seat after the button that can act.
    fn reopen_betting(&mut self)
        requires
            old(self)@.players.len() == NUM_PLAYERS,
            old(self)@.dealer < NUM_PLAYERS,
        ensures
            final(self)@ == reopen(old(self)@),
    {
        self.current_player = self.next_able_seat(self.dealer_position);
        self.pending_action = true;
        self.update_action_bounds();
    }

    /// Compares the two hands and pays out the pot; a tie splits it, the odd
    /// chip going to the lower seat.
    #[verifier::rlimit(60)]
    fn determine_winner(&mut self)
        requires
            showdown_ready(old(self)@),
        ensures
            final(self)@ == showdown(old(self)@),
            wf(final(self)@),
    {
        let ghost s = self@;
        proof {
            lemma_two_seats(s.players);
            lemma_all_valid_concat(s.players[0].hole_cards, s.community);
            lemma_all_valid_concat(s.players[1].hole_cards, s.community);
        }
        let h0 = PokerHandEvaluator::evaluate(self.players[0].get_hole_cards(), self.community_cards.as_slice());
        let h1 = PokerHandEvaluator::evaluate(self.players[1].get_hole_cards(), self.community_cards.as_slice());
        let pot = self.pot;
        let o = h0.compare(&h1);
        proof {
            lemma_hand_cmp_order(hand_of(s, 0), hand_of(s, 1));
            lemma_hand_cmp_order(hand_of(s, 1), hand_of(s, 0));
            assert(is_winner(s, 0) == (o != Ordering::Less));
            assert(is_winner(s, 1) == (o != Ordering::Greater));
            reveal_with_fuel(count_winners, 3);
            reveal_with_fuel(first_winner, 3);
        }
        match o {
            Ordering::Greater => {
                self.players[0].collect_pot(pot);
            },
            Ordering::Less => {
                self.players[1].collect_pot(pot);
            },
            Ordering::Equal => {
                self.players[0].collect_pot(pot / 2 + pot % 2);
                self.players[1].collect_pot(pot / 2);
            },
        }
        self.pot = 0;
        self.end_hand();
        proof {
            let t = showdown(s);
            assert(self@.players =~= t.players);
            lemma_two_seats(t.players);
        }
    }

    /// Deals every street still to come, with no betting, and goes to showdown.
    fn run_out_board(&mut self)
        requires
            mid_wf(old(self)@),
        ensures
            final(self)@ == run_out(old(self)@),
            final(self)@.players == old(self)@.players,
            final(self)@.pot == old(self)@.pot,
            final(self)@.dealer == old(self)@.dealer,
            final(self)@.current == old(self)@.current,
            crate::evaluator::all_valid(final(self)@.community),
            crate::evaluator::all_valid(final(self)@.deck),
            final(self)@.community.len() == 5,
    {
        while self.stage == GameStage::Preflop || self.stage == GameStage::Flop || self.stage
            == GameStage::Turn
            invariant
                run_out(self@) == run_out(old(self)@),
                is_betting_street(self@.stage),
                self@.deck.len() >= cards_needed(self@.stage),
                self@.community.len() == board_size(self@.stage),
                crate::evaluator::all_valid(self@.deck),
                crate::evaluator::all_valid(self@.community),
                self@.players == old(self)@.players,
                self@.pot == old(self)@.pot,
                self@.dealer == old(self)@.dealer,
                self@.current == old(self)@.current,
            decreases streets_left(self@.stage),
        {
            let ghost before = self@;
            if self.stage == GameStage::Preflop {
                self.deal_community_cards(3);
                self.stage = GameStage::Flop;
            } else if self.stage == GameStage::Flop {
                self.deal_community_cards(1);
                self.stage = GameStage::Turn;
            } else {
                self.deal_community_cards(1);
                self.stage = GameStage::River;
            }
            proof {
                let k = if before.stage == GameStage::Preflop { 3int } else { 1int };
                assert(self@ == deal_street(before, k, self@.stage));
                lemma_all_valid_concat(before.community, before.deck.drop_last().take(k));
            }
        }
        self.stage = GameStage::Showdown;
    }
}

impl PokerGameState {
    /// Closes the street: clears bets and actions, then deals the next street
    /// and reopens betting, or after the river goes to showdown.
    fn advance_street(&mut self)
        requires
            mid_wf(old(self)@),
            count_active(old(self)@.players) >= 2,
            count_betting(old(self)@.players) >= 1,
        ensures
            final(self)@ == advance_street(old(self)@),
            wf(final(self)@),
    {
        let ghost s = self@;
        let n = self.players.len();
        let mut i: usize = 0;
        while i < n
            invariant
                n == self@.players.len(),
                n == s.players.len(),
                i <= n,
                forall|j: int|
                    0 <= j < i ==> #[trigger] self@.players[j] == (PlayerView {
                        current_bet: 0,
                        acted: false,
                        ..s.players[j]
                    }),
                forall|j: int| i <= j < n ==> #[trigger] self@.players[j] == s.players[j],
                self@ == (GameView { players: self@.players, ..s }),
            decreases n - i,
        {
            let ghost prev = self@;
            self.players[i].reset_for_new_street();
            assert(self@.players =~= prev.players.update(
                i as int,
                PlayerView { current_bet: 0, acted: false, ..prev.players[i as int] },
            ));
            i = i + 1;
        }
        self.to_call = 0;
        proof {
            assert(self@.players =~= new_street(s).players);
            assert(self@ == new_street(s));
            lemma_two_seats(s.players);
            lemma_two_seats(self@.players);
        }
        let ghost t = self@;
        match self.stage {
            GameStage::Preflop => {
                self.deal_community_cards(3);
                self.stage = GameStage::Flop;
                self.reopen_betting();
            },
            GameStage::Flop => {
                self.deal_community_cards(1);
                self.stage = GameStage::Turn;
                self.reopen_betting();
            },
            GameStage::Turn => {
                self.deal_community_cards(1);
                self.stage = GameStage::River;
                self.reopen_betting();
            },
            GameStage::River => {
                self.stage = GameStage::Showdown;
                self.determine_winner();
            },
            _ => {
                self.end_hand();
            },
        }
        proof {
            if s.stage != GameStage::River {
                let k = if s.stage == GameStage::Preflop { 3int } else { 1int };
                lemma_all_valid_concat(t.community, t.deck.drop_last().take(k));
                lemma_two_seats(self@.players);
                assert(cards_valid(self@)) by {
                    assert forall|j: int| 0 <= j < self@.players.len() implies crate::evaluator::all_valid(
                        #[trigger] self@.players[j].hole_cards,
                    ) && self@.players[j].hole_cards.len() <= 2 by {
                        assert(self@.players[j].hole_cards == s.players[j].hole_cards);
                    }
                }
            }
        }
    }

    /// Settles the street after an action: a lone player left takes the pot,
    /// a table where nobody can bet is played out, a closed street advances.
    fn check_street_complete(&mut self)
        requires
            mid_wf(old(self)@),
        ensures
            final(self)@ == settle(old(self)@),
            wf(final(self)@),
    {
        let ghost s = self@;
        proof {
            lemma_two_seats(s.players);
        }
        let active = self.count_active_players();
        if active == 1 {
            let w = self.first_active_player();
            let pot = self.pot;
            self.players[w].collect_pot(pot);
            self.pot = 0;
            self.end_hand();
            proof {
                assert(self@.players =~= s.players.update(w as int, crate::rules::award(s.players[w as int], s.pot as int)));
                lemma_two_seats(self@.players);
                assert(cards_valid(self@)) by {
                    assert forall|j: int| 0 <= j < self@.players.len() implies crate::evaluator::all_valid(
                        #[trigger] self@.players[j].hole_cards,
                    ) && self@.players[j].hole_cards.len() <= 2 by {
                        assert(self@.players[j].hole_cards == s.players[j].hole_cards);
                    }
                }
            }
            return;
        }
        let betting = self.count_betting_players();
        if betting == 0 {
            self.run_out_board();
            proof {
                assert(cards_valid(self@)) by {
                    assert forall|j: int| 0 <= j < self@.players.len() implies crate::evaluator::all_valid(
                        #[trigger] self@.players[j].hole_cards,
                    ) && self@.players[j].hole_cards.len() <= 2 by {
                        assert(self@.players[j] == s.players[j]);
                    }
                }
            }
            self.determine_winner();
            return;
        }
        if self.street_is_closed() {
            self.advance_street();
        }
    }

    /// Moves the turn on and settles the street.
    fn advance_to_next_player(&mut self)
        requires
            mid_wf(advance_turn(old(self)@)),
            old(self)@.current < NUM_PLAYERS,
        ensures
            final(self)@ == settle(advance_turn(old(self)@)),
            wf(final(self)@),
    {
        self.current_player = self.next_able_seat(self.current_player);
        self.check_street_complete();
    }

    /// Takes the action of the seat to act. A refused action changes nothing;
    /// an accepted one moves its chips, passes the turn, and settles the
    /// street, which may deal the next street or end the hand.
    pub fn perform_action(&mut self, action: PlayerAction) -> (r: Result<String, PokerError>)
        requires
            wf(old(self)@),
        ensures
            wf(final(self)@),
            action_error(old(self)@, action) is Some ==> r == Err::<String, PokerError>(
                action_error(old(self)@, action)->0,
            ) && final(self)@ == old(self)@,
            action_error(old(self)@, action) is None ==> r is Ok && r->Ok_0@ == action_message(
                old(self)@,
                action,
            ) && final(self)@ == after_action(old(self)@, action),
            action_error(old(self)@, action) is None ==> cards_in_play(final(self)@).to_multiset()
                == cards_in_play(old(self)@).to_multiset(),
    {
        let ghost s = self@;
        if !self.pending_action {
            return Err(PokerError::NoPendingAction);
        }
        let i = self.current_player;
        if self.players[i].is_folded() || self.players[i].is_all_in() {
            return Err(PokerError::PlayerCannotAct);
        }
        proof {
            lemma_two_seats(s.players);
            assert(s.players[i as int].current_bet <= s.pot);
        }
        let current_bet = self.players[i].get_current_bet();
        let chips = self.players[i].get_chips();
        let call_amount = if self.to_call > current_bet {
            self.to_call - current_bet
        } else {
            0
        };
        let sized = if self.bet_amount < chips {
            self.bet_amount
        } else {
            chips
        };
        let mut message = String::from_str(self.players[i].get_name());
        match action {
            PlayerAction::Fold => {
                self.players[i].set_folded(true);
                message.append(" folded");
            },
            PlayerAction::Check => {
                if current_bet != self.to_call {
                    return Err(PokerError::IllegalCheck);
                }
                self.players[i].set_has_acted(true);
                message.append(" checked");
            },
            PlayerAction::Call => {
                let amount = if call_amount < chips {
                    call_amount
                } else {
                    chips
                };
                if let Err(e) = self.players[i].bet(amount) {
                    return Err(e);
                }
                self.pot = self.pot + amount;
                message.append(" called ");
                append_decimal(&mut message, amount);
            },
            PlayerAction::Bet => {
                if self.to_call > 0 {
                    return Err(PokerError::UseRaiseInstead);
                }
                if let Err(e) = self.players[i].bet(sized) {
                    return Err(e);
                }
                self.to_call = sized;
                self.pot = self.pot + sized;
                message.append(" bet ");
                append_decimal(&mut message, sized);
            },
            PlayerAction::Raise => {
                let total_bet = current_bet + sized;
                if self.to_call == 0 || total_bet <= self.to_call {
                    return Err(PokerError::RaiseTooSmall);
                }
                if let Err(e) = self.players[i].bet(sized) {
                    return Err(e);
                }
                self.to_call = total_bet;
                self.pot = self.pot + sized;
                message.append(" raised to ");
                append_decimal(&mut message, total_bet);
            },
            PlayerAction::AllIn => {
                if let Err(e) = self.players[i].bet(chips) {
                    return Err(e);
                }
                self.pot = self.pot + chips;
                if current_bet + chips > self.to_call {
                    self.to_call = current_bet + chips;
                }
                message.append(" went all-in with ");
                append_decimal(&mut message, chips);
            },
        }
        proof {
            let t = apply_action(s, action);
            assert(self@.players =~= t.players);
            assert(self@ == t);
            lemma_action_mid_wf(s, action);
            lemma_action_keeps_cards(s, action);
        }
        self.advance_to_next_player();
        Ok(message)
    }
}

impl PokerGameState {
    fn count_funded_players(&self) -> (c: usize)
        ensures
            c == count_funded(self@.players),
    {
        let n = self.players.len();
        let ghost ps = self@.players;
        let mut c: usize = 0;
        let mut i: usize = 0;
        while i < n
            invariant
                n == ps.len(),
                ps == self@.players,
                i <= n,
                c <= i,
                c == count_funded(ps.take(i as int)),
            decreases n - i,
        {
            assert(ps.take(i + 1).drop_last() =~= ps.take(i as int));
            if self.players[i].get_chips() >= MIN_CHIPS_TO_CONTINUE {
                c = c + 1;
            }
            i = i + 1;
        }
        assert(ps.take(n as int) =~= ps);
        c
    }

    /// Posts the small blind from the seat after the button and the big blind
    /// from the seat after that.
    fn post_blinds(&mut self)
        requires
            old(self)@.players.len() == NUM_PLAYERS,
            old(self)@.dealer < NUM_PLAYERS,
            old(self)@.players[(old(self)@.dealer + 1) % 2].chips >= SMALL_BLIND_CHIPS,
            old(self)@.players[(old(self)@.dealer + 2) % 2].chips >= BIG_BLIND_CHIPS,
            old(self)@.players[(old(self)@.dealer + 1) % 2].current_bet == 0,
            old(self)@.players[(old(self)@.dealer + 2) % 2].current_bet == 0,
        ensures
            ({
                let ps = old(self)@.players;
                let sb = (old(self)@.dealer + 1) % 2;
                let bb = (old(self)@.dealer + 2) % 2;
                let after_sb = ps.update(sb, after_bet(ps[sb], SMALL_BLIND_CHIPS));
                final(self)@ == (GameView {
                    players: after_sb.update(bb, after_bet(after_sb[bb], BIG_BLIND_CHIPS)),
                    pot: (SMALL_BLIND_CHIPS + BIG_BLIND_CHIPS) as u64,
                    ..old(self)@
                })
            }),
    {
        let ghost s = self@;
        let n = self.players.len();
        let sb = (self.dealer_position + 1) % n;
        let bb = (self.dealer_position + 2) % n;
        let _ = self.players[sb].bet(SMALL_BLIND_CHIPS);
        let ghost mid = self@;
        assert(mid.players =~= s.players.update(sb as int, after_bet(s.players[sb as int], SMALL_BLIND_CHIPS)));
        let _ = self.players[bb].bet(BIG_BLIND_CHIPS);
        assert(self@.players =~= mid.players.update(bb as int, after_bet(mid.players[bb as int], BIG_BLIND_CHIPS)));
        self.pot = SMALL_BLIND_CHIPS + BIG_BLIND_CHIPS;
    }

    /// Starts a hand dealt from `deck`, taken as already shuffled: clears the
    /// players, burns a card, deals two hole cards to each seat from the top,
    /// posts the blinds, and gives the turn to the first seat after the big
    /// blind that can act. The hand opens preflop with an empty board; only if
    /// the blinds leave nobody able to act is it played out at once. Refused,
    /// with nothing changed, when fewer than two players have the minimum
    /// stack, else while a hand is in progress, else when a blind is larger
    /// than its seat's stack, else when the deck is too short for the hand.
    pub fn start_new_hand_with_deck(&mut self, deck: Deck) -> (r: Result<(), PokerError>)
        requires
            wf(old(self)@),
            deck.wf(),
        ensures
            wf(final(self)@),
            start_error(old(self)@, deck@) is Some ==> r == Err::<(), PokerError>(
                start_error(old(self)@, deck@)->0,
            ) && final(self)@ == old(self)@,
            start_error(old(self)@, deck@) is None ==> r is Ok && final(self)@ == start_hand(
                old(self)@,
                deck@,
            ),
            start_error(old(self)@, deck@) is None ==> cards_in_play(final(self)@).to_multiset()
                == deck@.to_multiset() && distinct_valid(cards_in_play(final(self)@)),
    {
        let ghost s = self@;
        proof {
            lemma_two_seats(s.players);
        }
        if self.count_funded_players() < 2 {
            return Err(PokerError::InsufficientPlayers);
        }
        if self.pending_action {
            return Err(PokerError::HandInProgress);
        }
        let n = self.players.len();
        let sb = (self.dealer_position + 1) % n;
        let bb = (self.dealer_position + 2) % n;
        if self.players[sb].get_chips() < SMALL_BLIND_CHIPS || self.players[bb].get_chips()
            < BIG_BLIND_CHIPS {
            return Err(PokerError::InsufficientChips);
        }
        if deck.len() < 1 + 2 * n + 8 {
            return Err(PokerError::DealFailure);
        }
        let mut i: usize = 0;
        while i < n
            invariant
                n == self@.players.len(),
                n == s.players.len(),
                i <= n,
                forall|j: int|
                    0 <= j < i ==> #[trigger] self@.players[j] == dealt_in(s.players[j], Seq::empty()),
                forall|j: int| i <= j < n ==> #[trigger] self@.players[j] == s.players[j],
                self@ == (GameView { players: self@.players, ..s }),
            decreases n - i,
        {
            let ghost prev = self@;
            assert(prev.players[i as int] == s.players[i as int]);
            self.players[i].reset_for_new_hand();
            assert(self@.players =~= prev.players.update(i as int, dealt_in(s.players[i as int], Seq::empty())));
            i = i + 1;
        }
        let ghost full = deck@;
        let ghost rest = full.drop_last();
        self.deck = deck;
        self.community_cards.clear();
        let _ = self.deck.burn();
        self.burned_cards = Ghost(Seq::empty().push(full.last()));
        let mut i: usize = 0;
        while i < n
            invariant
                n == self@.players.len(),
                n == s.players.len(),
                n == NUM_PLAYERS,
                i <= n,
                rest.len() >= 2 * n + 8,
                self@.deck == rest.skip(2 * i),
                forall|j: int|
                    0 <= j < i ==> #[trigger] self@.players[j] == dealt_in(s.players[j], rest.subrange(2 * j, 2 * j + 2)),
                forall|j: int| i <= j < n ==> #[trigger] self@.players[j] == dealt_in(s.players[j], Seq::empty()),
                self@ == (GameView {
                    players: self@.players,
                    deck: self@.deck,
                    community: Seq::empty(),
                    burned: seq![full.last()],
                    ..s
                }),
            decreases n - i,
        {
            let ghost prev = self@;
            assert(prev.players[i as int] == dealt_in(s.players[i as int], Seq::empty()));
            if let Some(cards) = self.deck.deal(2) {
                self.players[i].receive_cards(cards);
                assert(cards@ =~= rest.subrange(2 * i, 2 * i + 2));
                assert(Seq::<Card>::empty() + cards@ =~= cards@);
                assert(self@.players =~= prev.players.update(i as int, dealt_in(s.players[i as int], rest.subrange(2 * i, 2 * i + 2))));
                assert(self@.deck =~= rest.skip(2 * (i + 1)));
            }
            i = i + 1;
        }
        self.post_blinds();
        self.stage = GameStage::Preflop;
        self.to_call = BIG_BLIND_CHIPS;
        self.pending_action = true;
        self.current_player = bb;
        proof {
            let o = opened_hand(s, full);
            let dealt = Seq::new(2, |j: int| dealt_in(s.players[j], rest.subrange(2 * j, 2 * j + 2)));
            assert(self@.players =~= o.players);
            assert(self@.deck == o.deck);
        }
        self.current_player = self.next_able_seat(bb);
        self.update_action_bounds();
        proof {
            assert(self@ == opened_hand(s, full));
            lemma_opened_mid_wf(s, full);
            lemma_start_keeps_cards(s, full);
        }
        if self.count_betting_players() == 0 {
            self.check_street_complete();
        }
        proof {
            lemma_reorder_keeps_distinct_valid(full, cards_in_play(self@));
        }
        Ok(())
    }

    /// Starts a hand with a freshly built and shuffled deck; see
    /// `start_new_hand_with_deck` for what is done and when it is refused.
    pub fn start_new_hand(&mut self) -> (r: Result<(), PokerError>)
        requires
            wf(old(self)@),
        ensures
            wf(final(self)@),
            start_error(old(self)@, full_deck()) is Some ==> r == Err::<(), PokerError>(
                start_error(old(self)@, full_deck())->0,
            ) && final(self)@ == old(self)@,
            start_error(old(self)@, full_deck()) is None ==> r is Ok && exists|d: Seq<Card>|
                d.to_multiset() == full_deck().to_multiset() && final(self)@ == #[trigger] start_hand(
                    old(self)@,
                    d,
                ),
            start_error(old(self)@, full_deck()) is None ==> cards_in_play(final(self)@).len() == 52
                && distinct_valid(cards_in_play(final(self)@)),
    {
        let mut deck = Deck::new();
        deck.shuffle();
        proof {
            lemma_full_deck();
            lemma_reorder_keeps_distinct_valid(full_deck(), deck@);
        }
        let ghost d = deck@;
        let r = self.start_new_hand_with_deck(deck);
        proof {
            if r is Ok {
                assert(self@ == start_hand(old(self)@, d));
                lemma_reorder_keeps_distinct_valid(full_deck(), cards_in_play(self@));
            }
        }
        r
    }
}

} // verus!
