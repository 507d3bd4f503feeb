//! The betting state machine as mathematics: the state a table is in, when it
//! is well formed, and what each operation turns it into.

use std::cmp::Ordering;
use vstd::prelude::*;

use crate::card::Card;
use crate::evaluator::{hand_cmp, hand_value, HandValue};
use crate::player::{after_bet, PlayerView};
use crate::error::PokerError;
use crate::{BIG_BLIND_CHIPS, INITIAL_CHIPS, MAX_BET_DEFAULT, MAX_BET_MULTIPLIER};
use crate::{MIN_CHIPS_TO_CONTINUE, NUM_PLAYERS, SMALL_BLIND_CHIPS};

verus! {

/// Where a hand stands.
#[derive(Clone, Copy, PartialEq, Eq, Structural, Debug)]
pub enum GameStage {
    Preflop,
    Flop,
    Turn,
    River,
    Showdown,
    HandComplete,
    WaitingToStart,
}

/// What the seat to act may do.
#[derive(Clone, Copy, PartialEq, Eq, Structural, Debug)]
pub enum PlayerAction {
    Fold,
    Check,
    Call,
    Bet,
    Raise,
    AllIn,
}

/// The name shown for a stage.
pub open spec fn stage_name(st: GameStage) -> Seq<char> {
    match st {
        GameStage::Preflop => "Preflop"@,
        GameStage::Flop => "Flop"@,
        GameStage::Turn => "Turn"@,
        GameStage::River => "River"@,
        GameStage::Showdown => "Showdown"@,
        GameStage::HandComplete => "Complete"@,
        GameStage::WaitingToStart => "Waiting"@,
    }
}

/// The table as the contracts see it.
pub struct GameView {
    pub deck: Seq<Card>,
    pub players: Seq<PlayerView>,
    pub community: Seq<Card>,
    pub burned: Seq<Card>,
    pub pot: u64,
    pub stage: GameStage,
    pub dealer: usize,
    pub current: usize,
    pub to_call: u64,
    pub pending: bool,
    pub bet_amount: u64,
    pub min_bet: u64,
    pub max_bet: u64,
    pub pot_odds: (u64, u64),
}

/// The chips in play for the whole session.
pub open spec fn chips_in_play() -> nat {
    (NUM_PLAYERS * INITIAL_CHIPS) as nat
}

/// The largest bet the table allows.
pub open spec fn bet_ceiling() -> u64 {
    (MAX_BET_DEFAULT * MAX_BET_MULTIPLIER) as u64
}

/// The streets on which players bet.
pub open spec fn is_betting_street(st: GameStage) -> bool {
    st == GameStage::Preflop || st == GameStage::Flop || st == GameStage::Turn || st
        == GameStage::River
}

/// Community cards on the table during a street.
pub open spec fn board_size(st: GameStage) -> nat {
    match st {
        GameStage::Flop => 3,
        GameStage::Turn => 4,
        GameStage::River => 5,
        _ => 0,
    }
}

/// A board as streets leave it: empty, the flop, the turn or the river.
pub open spec fn board_dealt(n: nat) -> bool {
    n == 0 || n == 3 || n == 4 || n == 5
}

/// Cards the deck must still supply, burns included, after a street opens.
pub open spec fn cards_needed(st: GameStage) -> nat {
    match st {
        GameStage::Preflop => 8,
        GameStage::Flop => 4,
        GameStage::Turn => 2,
        _ => 0,
    }
}

/// Streets still to be dealt after this one.
pub open spec fn streets_left(st: GameStage) -> nat {
    match st {
        GameStage::Preflop => 3,
        GameStage::Flop => 2,
        GameStage::Turn => 1,
        _ => 0,
    }
}

/// Neither folded nor all-in: the player can still act.
pub open spec fn can_act(p: PlayerView) -> bool {
    !p.folded && !p.all_in
}

/// Players who have not folded.
pub open spec fn count_active(ps: Seq<PlayerView>) -> nat
    decreases ps.len(),
{
    if ps.len() == 0 {
        0
    } else {
        count_active(ps.drop_last()) + if !ps.last().folded {
            1nat
        } else {
            0nat
        }
    }
}

/// Players who can still act.
pub open spec fn count_betting(ps: Seq<PlayerView>) -> nat
    decreases ps.len(),
{
    if ps.len() == 0 {
        0
    } else {
        count_betting(ps.drop_last()) + if can_act(ps.last()) {
            1nat
        } else {
            0nat
        }
    }
}

/// Players whose stack is large enough to be dealt in.
pub open spec fn count_funded(ps: Seq<PlayerView>) -> nat
    decreases ps.len(),
{
    if ps.len() == 0 {
        0
    } else {
        count_funded(ps.drop_last()) + if ps.last().chips >= MIN_CHIPS_TO_CONTINUE {
            1nat
        } else {
            0nat
        }
    }
}

/// The sum of all stacks.
pub open spec fn total_chips(ps: Seq<PlayerView>) -> nat
    decreases ps.len(),
{
    if ps.len() == 0 {
        0
    } else {
        total_chips(ps.drop_last()) + ps.last().chips as nat
    }
}

/// The first seat at or after `i` that has not folded; the seat count if none.
pub open spec fn first_active(ps: Seq<PlayerView>, i: int) -> int
    decreases ps.len() - i,
{
    if i < 0 || i >= ps.len() {
        ps.len() as int
    } else if !ps[i].folded {
        i
    } else {
        first_active(ps, i + 1)
    }
}

/// From seat `cur`, move round the table seat by seat, at most `k` times,
/// and stop at the first seat that can act.
pub open spec fn seek(ps: Seq<PlayerView>, cur: int, k: nat) -> int
    decreases k,
{
    if k == 0 {
        cur
    } else {
        let next = (cur + 1) % (ps.len() as int);
        if can_act(ps[next]) {
            next
        } else {
            seek(ps, next, (k - 1) as nat)
        }
    }
}

/// Every hole-card list and the board hold real cards, and the deck does too.
pub open spec fn cards_valid(s: GameView) -> bool {
    &&& crate::evaluator::all_valid(s.deck)
    &&& crate::evaluator::all_valid(s.community)
    &&& forall|i: int|
        0 <= i < s.players.len() ==> crate::evaluator::all_valid(#[trigger] s.players[i].hole_cards)
            && s.players[i].hole_cards.len() <= 2
}

/// The table's invariant.
pub open spec fn wf(s: GameView) -> bool {
    &&& s.players.len() == NUM_PLAYERS
    &&& total_chips(s.players) + s.pot == chips_in_play()
    &&& s.dealer < NUM_PLAYERS
    &&& s.current < NUM_PLAYERS
    &&& cards_valid(s)
    &&& s.community.len() <= 5
    &&& board_dealt(s.community.len())
    &&& s.stage == GameStage::WaitingToStart ==> s.community.len() == 0
    &&& s.pending == is_betting_street(s.stage)
    &&& !s.pending ==> s.pot == 0
    &&& s.pending ==> {
        &&& s.community.len() == board_size(s.stage)
        &&& s.deck.len() >= cards_needed(s.stage)
        &&& count_active(s.players) >= 2
        &&& can_act(s.players[s.current as int])
        &&& forall|i: int| 0 <= i < s.players.len() ==> #[trigger] s.players[i].current_bet <= s.pot
    }
}

/// What the seat to act owes to stay in: `to_call` less its bet, never negative.
pub open spec fn owed(s: GameView) -> u64 {
    let cb = s.players[s.current as int].current_bet;
    if s.to_call > cb {
        (s.to_call - cb) as u64
    } else {
        0
    }
}

/// The size a bet or raise uses: the selected amount, capped by the stack.
pub open spec fn sized(s: GameView) -> u64 {
    let chips = s.players[s.current as int].chips;
    if s.bet_amount < chips {
        s.bet_amount
    } else {
        chips
    }
}

/// Why an action is refused in a state, if it is.
pub open spec fn action_error(s: GameView, a: PlayerAction) -> Option<PokerError> {
    let p = s.players[s.current as int];
    if !s.pending {
        Some(PokerError::NoPendingAction)
    } else if p.folded || p.all_in {
        Some(PokerError::PlayerCannotAct)
    } else {
        match a {
            PlayerAction::Check => if p.current_bet != s.to_call {
                Some(PokerError::IllegalCheck)
            } else {
                None
            },
            PlayerAction::Bet => if s.to_call > 0 {
                Some(PokerError::UseRaiseInstead)
            } else {
                None
            },
            PlayerAction::Raise => if s.to_call == 0 || p.current_bet + sized(s) <= s.to_call {
                Some(PokerError::RaiseTooSmall)
            } else {
                None
            },
            _ => None,
        }
    }
}

/// The chips an accepted action moves from the stack to the pot.
pub open spec fn action_amount(s: GameView, a: PlayerAction) -> u64 {
    let p = s.players[s.current as int];
    match a {
        PlayerAction::Fold => 0,
        PlayerAction::Check => 0,
        PlayerAction::Call => if owed(s) < p.chips {
            owed(s)
        } else {
            p.chips
        },
        PlayerAction::Bet => sized(s),
        PlayerAction::Raise => sized(s),
        PlayerAction::AllIn => p.chips,
    }
}

/// The state right after an accepted action, before the turn moves on.
pub open spec fn apply_action(s: GameView, a: PlayerAction) -> GameView {
    let i = s.current as int;
    let p = s.players[i];
    let amt = action_amount(s, a);
    let committed = p.current_bet + amt;
    match a {
        PlayerAction::Fold => GameView {
            players: s.players.update(i, PlayerView { folded: true, ..p }),
            ..s
        },
        PlayerAction::Check => GameView {
            players: s.players.update(i, PlayerView { acted: true, ..p }),
            ..s
        },
        PlayerAction::Call => GameView {
            players: s.players.update(i, after_bet(p, amt)),
            pot: (s.pot + amt) as u64,
            ..s
        },
        PlayerAction::Bet => GameView {
            players: s.players.update(i, after_bet(p, amt)),
            pot: (s.pot + amt) as u64,
            to_call: amt,
            ..s
        },
        PlayerAction::Raise => GameView {
            players: s.players.update(i, after_bet(p, amt)),
            pot: (s.pot + amt) as u64,
            to_call: committed as u64,
            ..s
        },
        PlayerAction::AllIn => GameView {
            players: s.players.update(i, after_bet(p, amt)),
            pot: (s.pot + amt) as u64,
            to_call: if committed > s.to_call {
                committed as u64
            } else {
                s.to_call
            },
            ..s
        },
    }
}

/// The turn passes to the next seat that can act, trying each seat at most once.
pub open spec fn advance_turn(s: GameView) -> GameView {
    GameView { current: seek(s.players, s.current as int, s.players.len()) as usize, ..s }
}

/// The hand is over: the button moves on and no action is awaited.
pub open spec fn end_hand(s: GameView) -> GameView {
    GameView {
        stage: GameStage::HandComplete,
        dealer: ((s.dealer + 1) % (s.players.len() as int)) as usize,
        pending: false,
        ..s
    }
}

/// A player's stack grown by `amount`.
pub open spec fn award(p: PlayerView, amount: int) -> PlayerView {
    PlayerView { chips: (p.chips + amount) as u64, ..p }
}

/// Everyone else folded: the last player in takes the pot and the hand ends.
pub open spec fn win_by_fold(s: GameView) -> GameView {
    let w = first_active(s.players, 0);
    end_hand(GameView { players: s.players.update(w, award(s.players[w], s.pot as int)), pot: 0, ..s })
}

/// The best hand of seat `i` from its hole cards and the board.
pub open spec fn hand_of(s: GameView, i: int) -> HandValue {
    hand_value(s.players[i].hole_cards + s.community)
}

/// Seat `i` is in the hand and no hand still in beats it.
pub open spec fn is_winner(s: GameView, i: int) -> bool {
    &&& 0 <= i < s.players.len()
    &&& !s.players[i].folded
    &&& forall|j: int|
        0 <= j < s.players.len() && !s.players[j].folded ==> hand_cmp(hand_of(s, i), #[trigger] hand_of(s, j))
            != Ordering::Less
}

/// How many of the seats below `k` hold a winning hand.
pub open spec fn count_winners(s: GameView, k: int) -> nat
    decreases k,
{
    if k <= 0 {
        0
    } else {
        count_winners(s, k - 1) + if is_winner(s, k - 1) {
            1nat
        } else {
            0nat
        }
    }
}

/// The lowest-indexed winning seat at or after `i`.
pub open spec fn first_winner(s: GameView, i: int) -> int
    decreases s.players.len() - i,
{
    if i < 0 || i >= s.players.len() {
        s.players.len() as int
    } else if is_winner(s, i) {
        i
    } else {
        first_winner(s, i + 1)
    }
}

/// What seat `i` takes from the pot at showdown: an equal floor share per
/// winner, and the remainder to the lowest-indexed winner.
pub open spec fn showdown_share(s: GameView, i: int) -> int {
    let w = count_winners(s, s.players.len() as int);
    (if is_winner(s, i) {
        s.pot as int / w as int
    } else {
        0
    }) + (if i == first_winner(s, 0) {
        s.pot as int % w as int
    } else {
        0
    })
}

/// Hands are compared, the pot is shared out, and the hand ends.
pub open spec fn showdown(s: GameView) -> GameView {
    end_hand(
        GameView {
            players: Seq::new(s.players.len(), |i: int| award(s.players[i], showdown_share(s, i))),
            pot: 0,
            ..s
        },
    )
}

/// A burn from the bottom, then `k` cards from the top onto the board.
pub open spec fn deal_street(s: GameView, k: int, next: GameStage) -> GameView {
    GameView {
        deck: s.deck.drop_last().skip(k),
        community: s.community + s.deck.drop_last().take(k),
        burned: s.burned.push(s.deck.last()),
        stage: next,
        ..s
    }
}

/// With nobody able to bet, the remaining streets are dealt without betting.
pub open spec fn run_out(s: GameView) -> GameView
    decreases streets_left(s.stage),
{
    match s.stage {
        GameStage::Preflop => run_out(deal_street(s, 3, GameStage::Flop)),
        GameStage::Flop => run_out(deal_street(s, 1, GameStage::Turn)),
        GameStage::Turn => run_out(deal_street(s, 1, GameStage::River)),
        _ => GameView { stage: GameStage::Showdown, ..s },
    }
}

/// `v` clamped into `[lo, hi]`, the lower bound applied first.
pub open spec fn clamp(v: u64, lo: u64, hi: u64) -> u64 {
    let up = if v < lo {
        lo
    } else {
        v
    };
    if up > hi {
        hi
    } else {
        up
    }
}

/// Bet sizing for the seat to act: at least the big blind, or twice the
/// amount to call; at most the stack and the table's ceiling.
pub open spec fn with_bounds(s: GameView) -> GameView {
    let min_bet: u64 = if s.to_call == 0 {
        BIG_BLIND_CHIPS
    } else if s.to_call * 2 <= u64::MAX {
        (s.to_call * 2) as u64
    } else {
        u64::MAX
    };
    let chips = s.players[s.current as int].chips;
    let max_bet = if chips < bet_ceiling() {
        chips
    } else {
        bet_ceiling()
    };
    GameView { min_bet, max_bet, bet_amount: clamp(s.bet_amount, min_bet, max_bet), ..s }
}

/// Betting reopens after the button, at the first seat that can act.
pub open spec fn reopen(s: GameView) -> GameView {
    with_bounds(
        GameView {
            current: seek(s.players, s.dealer as int, s.players.len()) as usize,
            pending: true,
            ..s
        },
    )
}

/// A fresh street: no bets in front of anyone, nobody has acted, nothing to call.
pub open spec fn new_street(s: GameView) -> GameView {
    GameView {
        players: Seq::new(
            s.players.len(),
            |i: int| PlayerView { current_bet: 0, acted: false, ..s.players[i] },
        ),
        to_call: 0,
        ..s
    }
}

/// The street is over: deal the next one and reopen betting, or after the
/// river go to showdown.
pub open spec fn advance_street(s: GameView) -> GameView {
    let t = new_street(s);
    match s.stage {
        GameStage::Preflop => reopen(deal_street(t, 3, GameStage::Flop)),
        GameStage::Flop => reopen(deal_street(t, 1, GameStage::Turn)),
        GameStage::Turn => reopen(deal_street(t, 1, GameStage::River)),
        GameStage::River => showdown(GameView { stage: GameStage::Showdown, ..t }),
        _ => end_hand(t),
    }
}

/// Every player who can act has acted and matched the amount to call.
pub open spec fn street_closed(s: GameView) -> bool {
    forall|i: int|
        0 <= i < s.players.len() && can_act(#[trigger] s.players[i]) ==> s.players[i].acted
            && s.players[i].current_bet == s.to_call
}

/// What follows an action: the hand ends if one player is left, is played
/// out if nobody can bet, moves to the next street if this one is closed.
pub open spec fn settle(s: GameView) -> GameView {
    if count_active(s.players) == 1 {
        win_by_fold(s)
    } else if count_betting(s.players) == 0 {
        showdown(run_out(s))
    } else if street_closed(s) {
        advance_street(s)
    } else {
        s
    }
}

/// The whole effect of an accepted action.
pub open spec fn after_action(s: GameView, a: PlayerAction) -> GameView {
    settle(advance_turn(apply_action(s, a)))
}

/// Why a new hand cannot start, if it cannot.
pub open spec fn start_error(s: GameView, deck: Seq<Card>) -> Option<PokerError> {
    let n = s.players.len() as int;
    let sb = (s.dealer + 1) % n;
    let bb = (s.dealer + 2) % n;
    if count_funded(s.players) < 2 {
        Some(PokerError::InsufficientPlayers)
    } else if s.pending {
        Some(PokerError::HandInProgress)
    } else if s.players[sb].chips < SMALL_BLIND_CHIPS || s.players[bb].chips < BIG_BLIND_CHIPS {
        Some(PokerError::InsufficientChips)
    } else if deck.len() < 1 + 2 * n + cards_needed(GameStage::Preflop) {
        Some(PokerError::DealFailure)
    } else {
        None
    }
}

/// A player cleared for a new hand and given two hole cards.
pub open spec fn dealt_in(p: PlayerView, cards: Seq<Card>) -> PlayerView {
    PlayerView {
        hole_cards: cards,
        current_bet: 0,
        folded: false,
        all_in: false,
        acted: false,
        ..p
    }
}

/// The table once the cards are dealt and the blinds posted, before anyone acts:
/// one card burned, two hole cards per seat from the top in seat order.
pub open spec fn opened_hand(s: GameView, deck: Seq<Card>) -> GameView {
    let n = s.players.len() as int;
    let sb = (s.dealer + 1) % n;
    let bb = (s.dealer + 2) % n;
    let rest = deck.drop_last();
    let dealt = Seq::new(
        s.players.len(),
        |i: int| dealt_in(s.players[i], rest.subrange(2 * i, 2 * i + 2)),
    );
    let blinded = dealt.update(sb, after_bet(dealt[sb], SMALL_BLIND_CHIPS)).update(
        bb,
        after_bet(dealt.update(sb, after_bet(dealt[sb], SMALL_BLIND_CHIPS))[bb], BIG_BLIND_CHIPS),
    );
    let t = GameView {
        deck: rest.skip(2 * n),
        players: blinded,
        community: Seq::empty(),
        burned: seq![deck.last()],
        pot: (SMALL_BLIND_CHIPS + BIG_BLIND_CHIPS) as u64,
        stage: GameStage::Preflop,
        current: ((s.dealer + 2) % n) as usize,
        to_call: BIG_BLIND_CHIPS,
        pending: true,
        ..s
    };
    with_bounds(advance_turn(t))
}

/// The whole effect of starting a hand with `deck` as the shuffled deck: the
/// hand opens preflop, unless the blinds leave nobody able to act, in which
/// case it is played out at once.
pub open spec fn start_hand(s: GameView, deck: Seq<Card>) -> GameView {
    let o = opened_hand(s, deck);
    if count_betting(o.players) == 0 {
        settle(o)
    } else {
        o
    }
}

/// At a table of two, the counts and sums over seats are those of seats 0 and 1.
pub proof fn lemma_two_seats(ps: Seq<PlayerView>)
    requires
        ps.len() == 2,
    ensures
        total_chips(ps) == ps[0].chips + ps[1].chips,
        count_active(ps) == (if !ps[0].folded { 1nat } else { 0nat }) + (if !ps[1].folded { 1nat } else { 0nat }),
        count_betting(ps) == (if can_act(ps[0]) { 1nat } else { 0nat }) + (if can_act(ps[1]) { 1nat } else { 0nat }),
        count_funded(ps) == (if ps[0].chips >= MIN_CHIPS_TO_CONTINUE { 1nat } else { 0nat }) + (if ps[1].chips >= MIN_CHIPS_TO_CONTINUE { 1nat } else { 0nat }),
        first_active(ps, 0) == (if !ps[0].folded { 0int } else if !ps[1].folded { 1int } else { 2int }),
        seek(ps, 0, 2) == (if can_act(ps[1]) { 1int } else if can_act(ps[0]) { 0int } else { 0int }),
        seek(ps, 1, 2) == (if can_act(ps[0]) { 0int } else if can_act(ps[1]) { 1int } else { 1int }),
{
    let p1 = ps.drop_last();
    assert(p1.drop_last().len() == 0);
    assert(p1.last() == ps[0]);
    reveal_with_fuel(total_chips, 3);
    reveal_with_fuel(count_active, 3);
    reveal_with_fuel(count_betting, 3);
    reveal_with_fuel(count_funded, 3);
    assert(total_chips(p1) == ps[0].chips);
    assert(count_active(p1) == if !ps[0].folded { 1nat } else { 0nat });
    assert(count_betting(p1) == if can_act(ps[0]) { 1nat } else { 0nat });
    assert(count_funded(p1) == if ps[0].chips >= MIN_CHIPS_TO_CONTINUE { 1nat } else { 0nat });
    reveal_with_fuel(first_active, 3);
    reveal_with_fuel(seek, 3);
}

/// The table between an accepted action and the settling of the street:
/// as `wf`, except that one player may be left and the seat to act is only
/// owed to be able to act while someone can.
pub open spec fn mid_wf(s: GameView) -> bool {
    &&& s.players.len() == NUM_PLAYERS
    &&& total_chips(s.players) + s.pot == chips_in_play()
    &&& s.dealer < NUM_PLAYERS
    &&& s.current < NUM_PLAYERS
    &&& cards_valid(s)
    &&& s.pending
    &&& is_betting_street(s.stage)
    &&& s.community.len() == board_size(s.stage)
    &&& s.deck.len() >= cards_needed(s.stage)
    &&& count_active(s.players) >= 1
    &&& count_betting(s.players) > 0 ==> can_act(s.players[s.current as int])
    &&& forall|i: int| 0 <= i < s.players.len() ==> #[trigger] s.players[i].current_bet <= s.pot
}

/// The character of a decimal digit.
pub open spec fn digit_char(d: nat) -> char {
    (d + 48) as char
}

/// The decimal numeral of `n`, without leading zeros.
pub open spec fn decimal(n: nat) -> Seq<char>
    decreases n,
{
    if n < 10 {
        seq![digit_char(n)]
    } else {
        decimal(n / 10).push(digit_char(n % 10))
    }
}

/// The line that reports an accepted action.
pub open spec fn action_message(s: GameView, a: PlayerAction) -> Seq<char> {
    let p = s.players[s.current as int];
    let amt = action_amount(s, a);
    match a {
        PlayerAction::Fold => p.name + " folded"@,
        PlayerAction::Check => p.name + " checked"@,
        PlayerAction::Call => p.name + " called "@ + decimal(amt as nat),
        PlayerAction::Bet => p.name + " bet "@ + decimal(amt as nat),
        PlayerAction::Raise => p.name + " raised to "@ + decimal((p.current_bet + amt) as nat),
        PlayerAction::AllIn => p.name + " went all-in with "@ + decimal(amt as nat),
    }
}

/// An accepted action leaves the table ready to be settled.
pub proof fn lemma_action_mid_wf(s: GameView, a: PlayerAction)
    requires
        wf(s),
        action_error(s, a) is None,
    ensures
        mid_wf(advance_turn(apply_action(s, a))),
{
    let t = apply_action(s, a);
    let u = advance_turn(t);
    lemma_two_seats(s.players);
    lemma_two_seats(t.players);
    assert(t.players.len() == 2);
    assert forall|i: int| 0 <= i < t.players.len() implies #[trigger] t.players[i].current_bet <= t.pot by {
        assert(s.players[i].current_bet <= s.pot);
    }
    assert(cards_valid(t)) by {
        assert forall|i: int| 0 <= i < t.players.len() implies crate::evaluator::all_valid(
            #[trigger] t.players[i].hole_cards,
        ) && t.players[i].hole_cards.len() <= 2 by {
            assert(t.players[i].hole_cards == s.players[i].hole_cards);
        }
    }
}

/// The table at showdown: both hands are in and the board is dealt out.
pub open spec fn showdown_ready(s: GameView) -> bool {
    &&& s.players.len() == NUM_PLAYERS
    &&& total_chips(s.players) + s.pot == chips_in_play()
    &&& s.dealer < NUM_PLAYERS
    &&& s.current < NUM_PLAYERS
    &&& cards_valid(s)
    &&& s.community.len() == 5
    &&& count_active(s.players) >= 2
}

/// A hand that may start leaves the table ready to be settled once the
/// blinds are posted.
pub proof fn lemma_opened_mid_wf(s: GameView, deck: Seq<Card>)
    requires
        wf(s),
        start_error(s, deck) is None,
        crate::evaluator::all_valid(deck),
    ensures
        mid_wf(opened_hand(s, deck)),
        count_active(opened_hand(s, deck).players) == 2,
        count_betting(opened_hand(s, deck).players) > 0 ==> wf(opened_hand(s, deck)),
{
    let o = opened_hand(s, deck);
    let rest = deck.drop_last();
    lemma_two_seats(s.players);
    lemma_two_seats(o.players);
    assert forall|i: int| 0 <= i < o.players.len() implies crate::evaluator::all_valid(
        #[trigger] o.players[i].hole_cards,
    ) && o.players[i].hole_cards.len() <= 2 by {
        let h = o.players[i].hole_cards;
        assert(h == rest.subrange(2 * i, 2 * i + 2));
        assert forall|k: int| 0 <= k < h.len() implies (#[trigger] h[k]).valid() by {
            assert(h[k] == deck[2 * i + k]);
        }
    }
    assert forall|k: int| 0 <= k < o.deck.len() implies (#[trigger] o.deck[k]).valid() by {
        assert(o.deck[k] == deck[4 + k]);
    }
    let sb = (s.dealer + 1) % 2;
    let bb = (s.dealer + 2) % 2;
    assert(sb + bb == 1);
    assert(o.players[sb].chips == s.players[sb].chips - SMALL_BLIND_CHIPS);
    assert(o.players[bb].chips == s.players[bb].chips - BIG_BLIND_CHIPS);
    assert(s.pot == 0);
}

/// Chips are conserved: at every well-formed table the stacks and the pot
/// add up to what the players were seated with. Every operation of the
/// engine keeps the table well formed, so this holds after any sequence of them.
pub proof fn lemma_chips_conserved(s: GameView)
    requires
        wf(s),
    ensures
        s.players[0].chips + s.players[1].chips + s.pot == NUM_PLAYERS * INITIAL_CHIPS,
{
    lemma_two_seats(s.players);
}

/// A check is refused whenever the player's bet differs from the amount to
/// call, and a bet whenever there is an amount to call.
pub proof fn lemma_check_and_bet_refused(s: GameView)
    ensures
        s.players[s.current as int].current_bet != s.to_call ==> action_error(
            s,
            PlayerAction::Check,
        ) is Some,
        s.to_call > 0 ==> action_error(s, PlayerAction::Bet) is Some,
{
}

/// Once every player who can act has acted and matched the amount to call,
/// the street advances exactly once: the flop adds three cards, the turn and
/// the river one each, after the river comes the showdown, and the board
/// never holds more than five cards. A street not yet closed stays open.
pub proof fn lemma_street_advances(t: GameView)
    requires
        mid_wf(t),
        count_active(t.players) >= 2,
        count_betting(t.players) >= 1,
    ensures
        !street_closed(t) ==> settle(t) == t,
        street_closed(t) ==> ({
            let u = settle(t);
            &&& t.stage == GameStage::Preflop ==> u.stage == GameStage::Flop && u.community.len()
                == t.community.len() + 3
            &&& t.stage == GameStage::Flop ==> u.stage == GameStage::Turn && u.community.len()
                == t.community.len() + 1
            &&& t.stage == GameStage::Turn ==> u.stage == GameStage::River && u.community.len()
                == t.community.len() + 1
            &&& t.stage == GameStage::River ==> u.stage == GameStage::HandComplete
                && u.community == t.community
            &&& u.community.len() <= 5
            &&& u.community.take(t.community.len() as int) == t.community
        }),
{
    if street_closed(t) {
        let u = settle(t);
        assert(u.community.take(t.community.len() as int) =~= t.community);
    }
}

/// When a player folds and one player is left, that player takes the whole
/// pot at once, the folder's stack is untouched, and the hand ends with no
/// further card dealt.
pub proof fn lemma_fold_wins_pot(s: GameView)
    requires
        wf(s),
        action_error(s, PlayerAction::Fold) is None,
    ensures
        ({
            let u = after_action(s, PlayerAction::Fold);
            let me = s.current as int;
            let other = 1 - me;
            &&& u.players[other].chips == s.players[other].chips + s.pot
            &&& u.players[me].chips == s.players[me].chips
            &&& u.pot == 0
            &&& u.stage == GameStage::HandComplete
            &&& !u.pending
            &&& u.community == s.community
            &&& u.deck == s.deck
        }),
{
    let t = advance_turn(apply_action(s, PlayerAction::Fold));
    lemma_two_seats(s.players);
    lemma_two_seats(t.players);
    assert(count_active(t.players) == 1);
}

/// At a showdown of equal hands the pot splits by floor division and the odd
/// chip, if any, goes to the lower seat.
pub proof fn lemma_tie_splits_pot(s: GameView)
    requires
        showdown_ready(s),
        hand_cmp(hand_of(s, 0), hand_of(s, 1)) == Ordering::Equal,
    ensures
        showdown(s).players[0].chips == s.players[0].chips + s.pot / 2 + s.pot % 2,
        showdown(s).players[1].chips == s.players[1].chips + s.pot / 2,
        showdown(s).pot == 0,
{
    lemma_two_seats(s.players);
    crate::evaluator::lemma_hand_cmp_order(hand_of(s, 0), hand_of(s, 1));
    crate::evaluator::lemma_hand_cmp_order(hand_of(s, 1), hand_of(s, 0));
    assert(is_winner(s, 0));
    assert(is_winner(s, 1));
    reveal_with_fuel(count_winners, 3);
    reveal_with_fuel(first_winner, 3);
}

/// At any showdown the shares handed out add up to the pot exactly.
pub proof fn lemma_showdown_pays_pot(s: GameView)
    requires
        showdown_ready(s),
    ensures
        total_chips(showdown(s).players) == total_chips(s.players) + s.pot,
{
    lemma_two_seats(s.players);
    lemma_two_seats(showdown(s).players);
    crate::evaluator::lemma_hand_cmp_order(hand_of(s, 0), hand_of(s, 1));
    crate::evaluator::lemma_hand_cmp_order(hand_of(s, 1), hand_of(s, 0));
    reveal_with_fuel(count_winners, 3);
    reveal_with_fuel(first_winner, 3);
    let c = hand_cmp(hand_of(s, 0), hand_of(s, 1));
    assert(is_winner(s, 0) == (c != Ordering::Less));
    assert(is_winner(s, 1) == (c != Ordering::Greater));
    let p = s.pot as int;
    if c == Ordering::Equal {
        assert(p / 2 + p % 2 + p / 2 == p) by (nonlinear_arith)
            requires
                p >= 0,
        ;
        assert(showdown_share(s, 0) == p / 2 + p % 2);
        assert(showdown_share(s, 1) == p / 2);
    } else if c == Ordering::Less {
        assert(count_winners(s, 2) == 1);
        assert(first_winner(s, 0) == 1);
        assert(p / 1 == p && p % 1 == 0);
        assert(showdown_share(s, 0) == 0);
        assert(showdown_share(s, 1) == p);
    } else {
        assert(count_winners(s, 2) == 1);
        assert(first_winner(s, 0) == 0);
        assert(p / 1 == p && p % 1 == 0);
        assert(showdown_share(s, 0) == p);
        assert(showdown_share(s, 1) == 0);
    }
    let u = showdown(s);
    assert(u.players[0].chips == s.players[0].chips + showdown_share(s, 0));
    assert(u.players[1].chips == s.players[1].chips + showdown_share(s, 1));
}

/// Every card of the hand: the deck, both hands, the board and the burned cards.
pub open spec fn cards_in_play(s: GameView) -> Seq<Card> {
    s.deck + s.players[0].hole_cards + s.players[1].hole_cards + s.community + s.burned
}

proof fn lemma_in_play_multiset(s: GameView)
    ensures
        cards_in_play(s).to_multiset() == s.deck.to_multiset().add(
            s.players[0].hole_cards.to_multiset(),
        ).add(s.players[1].hole_cards.to_multiset()).add(s.community.to_multiset()).add(
            s.burned.to_multiset(),
        ),
{
    broadcast use vstd::seq_lib::lemma_multiset_commutative;

}

/// Dealing a street moves cards from the deck to the board and the burn pile
/// and creates or loses none.
proof fn lemma_deal_street_keeps_cards(s: GameView, k: int, next: GameStage)
    requires
        0 <= k,
        s.deck.len() >= k + 1,
    ensures
        cards_in_play(deal_street(s, k, next)).to_multiset() == cards_in_play(s).to_multiset(),
        deal_street(s, k, next).players == s.players,
{
    broadcast use vstd::seq_lib::lemma_multiset_commutative;
    broadcast use vstd::multiset::group_multiset_axioms;

    let d = s.deck;
    let r = d.drop_last();
    let u = deal_street(s, k, next);
    assert(d =~= r.take(k) + r.skip(k) + seq![d.last()]);
    assert(u.burned =~= s.burned + seq![d.last()]);
    lemma_in_play_multiset(s);
    lemma_in_play_multiset(u);
    assert(cards_in_play(u).to_multiset() =~= cards_in_play(s).to_multiset());
}

proof fn lemma_run_out_keeps_cards(s: GameView)
    requires
        is_betting_street(s.stage),
        s.deck.len() >= cards_needed(s.stage),
    ensures
        cards_in_play(run_out(s)).to_multiset() == cards_in_play(s).to_multiset(),
        run_out(s).players == s.players,
    decreases streets_left(s.stage),
{
    match s.stage {
        GameStage::Preflop => {
            lemma_deal_street_keeps_cards(s, 3, GameStage::Flop);
            lemma_run_out_keeps_cards(deal_street(s, 3, GameStage::Flop));
        },
        GameStage::Flop => {
            lemma_deal_street_keeps_cards(s, 1, GameStage::Turn);
            lemma_run_out_keeps_cards(deal_street(s, 1, GameStage::Turn));
        },
        GameStage::Turn => {
            lemma_deal_street_keeps_cards(s, 1, GameStage::River);
            lemma_run_out_keeps_cards(deal_street(s, 1, GameStage::River));
        },
        _ => {
            assert(cards_in_play(run_out(s)) == cards_in_play(s));
        },
    }
}

/// Settling a street moves cards only from the deck to the board and the burn pile.
proof fn lemma_settle_keeps_cards(t: GameView)
    requires
        mid_wf(t),
    ensures
        cards_in_play(settle(t)).to_multiset() == cards_in_play(t).to_multiset(),
{
    lemma_two_seats(t.players);
    if count_active(t.players) == 1 {
        let u = win_by_fold(t);
        assert(u.players[0].hole_cards == t.players[0].hole_cards);
        assert(u.players[1].hole_cards == t.players[1].hole_cards);
        assert(cards_in_play(u) == cards_in_play(t));
    } else if count_betting(t.players) == 0 {
        lemma_run_out_keeps_cards(t);
        let r = run_out(t);
        let u = showdown(r);
        assert(u.players[0].hole_cards == r.players[0].hole_cards);
        assert(u.players[1].hole_cards == r.players[1].hole_cards);
        assert(cards_in_play(u) == cards_in_play(r));
    } else if street_closed(t) {
        let n = new_street(t);
        assert(n.players[0].hole_cards == t.players[0].hole_cards);
        assert(n.players[1].hole_cards == t.players[1].hole_cards);
        assert(cards_in_play(n) == cards_in_play(t));
        match t.stage {
            GameStage::Preflop => {
                lemma_deal_street_keeps_cards(n, 3, GameStage::Flop);
                let d = deal_street(n, 3, GameStage::Flop);
                assert(cards_in_play(reopen(d)) == cards_in_play(d));
            },
            GameStage::Flop => {
                lemma_deal_street_keeps_cards(n, 1, GameStage::Turn);
                let d = deal_street(n, 1, GameStage::Turn);
                assert(cards_in_play(reopen(d)) == cards_in_play(d));
            },
            GameStage::Turn => {
                lemma_deal_street_keeps_cards(n, 1, GameStage::River);
                let d = deal_street(n, 1, GameStage::River);
                assert(cards_in_play(reopen(d)) == cards_in_play(d));
            },
            _ => {
                let r = GameView { stage: GameStage::Showdown, ..n };
                let u = showdown(r);
                assert(u.players[0].hole_cards == r.players[0].hole_cards);
                assert(u.players[1].hole_cards == r.players[1].hole_cards);
                assert(cards_in_play(u) == cards_in_play(r));
            },
        }
    }
}

/// No action creates, loses or copies a card: the cards in play after it are
/// those before it.
pub proof fn lemma_action_keeps_cards(s: GameView, a: PlayerAction)
    requires
        wf(s),
        action_error(s, a) is None,
    ensures
        cards_in_play(after_action(s, a)).to_multiset() == cards_in_play(s).to_multiset(),
{
    let t = advance_turn(apply_action(s, a));
    lemma_action_mid_wf(s, a);
    lemma_two_seats(s.players);
    assert(t.players[0].hole_cards == s.players[0].hole_cards);
    assert(t.players[1].hole_cards == s.players[1].hole_cards);
    assert(cards_in_play(t) == cards_in_play(s));
    lemma_settle_keeps_cards(t);
}

/// A new hand puts exactly the cards of its deck in play: burned, in hand,
/// or still in the deck.
pub proof fn lemma_start_keeps_cards(s: GameView, deck: Seq<Card>)
    requires
        wf(s),
        start_error(s, deck) is None,
        crate::evaluator::all_valid(deck),
    ensures
        cards_in_play(start_hand(s, deck)).to_multiset() == deck.to_multiset(),
{
    broadcast use vstd::seq_lib::lemma_multiset_commutative;
    broadcast use vstd::multiset::group_multiset_axioms;

    let o = opened_hand(s, deck);
    let r = deck.drop_last();
    lemma_opened_mid_wf(s, deck);
    if count_betting(o.players) == 0 {
        lemma_settle_keeps_cards(o);
    }
    assert(o.players[0].hole_cards =~= r.subrange(0, 2));
    assert(o.players[1].hole_cards =~= r.subrange(2, 4));
    assert(r =~= r.subrange(0, 2) + r.subrange(2, 4) + r.skip(4));
    assert(deck =~= r + seq![deck.last()]);
    assert(o.burned =~= seq![deck.last()]);
    assert(o.community.to_multiset() =~= vstd::multiset::Multiset::empty()) by {
        o.community.to_multiset_ensures();
        vstd::multiset::lemma_multiset_empty_len(o.community.to_multiset());
    }
    lemma_in_play_multiset(o);
    assert(deck.to_multiset() =~= cards_in_play(o).to_multiset());
}

/// In every well-formed table, hence after any sequence of the engine's
/// operations from a new table, the board holds at most five cards, and as
/// many as the stage says: none before the flop, three on the flop, four on
/// the turn, five on the river; a finished hand keeps the board it reached.
pub proof fn lemma_board_matches_stage(s: GameView)
    requires
        wf(s),
    ensures
        s.community.len() <= 5,
        board_dealt(s.community.len()),
        s.stage == GameStage::WaitingToStart || s.stage == GameStage::Preflop ==> s.community.len() == 0,
        s.stage == GameStage::Flop ==> s.community.len() == 3,
        s.stage == GameStage::Turn ==> s.community.len() == 4,
        s.stage == GameStage::River ==> s.community.len() == 5,
{
}

/// Any showdown pays each seat holding a best hand an equal floor share of
/// the pot, the remainder going to the lowest such seat, leaves the other
/// seats' stacks as they were, empties the pot, and ends the hand with the
/// button moved on. At least one seat wins.
pub proof fn lemma_showdown_payout(s: GameView)
    requires
        showdown_ready(s),
    ensures
        count_winners(s, 2) >= 1,
        first_winner(s, 0) < 2 && is_winner(s, first_winner(s, 0)),
        forall|i: int|
            0 <= i < 2 ==> #[trigger] showdown(s).players[i].chips == s.players[i].chips + (if is_winner(s, i) {
                s.pot as int / count_winners(s, 2) as int
            } else {
                0
            }) + (if i == first_winner(s, 0) {
                s.pot as int % count_winners(s, 2) as int
            } else {
                0
            }),
        showdown(s).pot == 0,
        showdown(s).stage == GameStage::HandComplete,
        showdown(s).dealer == (s.dealer + 1) % 2,
        !showdown(s).pending,
{
    lemma_two_seats(s.players);
    lemma_showdown_pays_pot(s);
    crate::evaluator::lemma_hand_cmp_order(hand_of(s, 0), hand_of(s, 1));
    crate::evaluator::lemma_hand_cmp_order(hand_of(s, 1), hand_of(s, 0));
    reveal_with_fuel(count_winners, 3);
    reveal_with_fuel(first_winner, 3);
    let c = hand_cmp(hand_of(s, 0), hand_of(s, 1));
    assert(is_winner(s, 0) == (c != Ordering::Less));
    assert(is_winner(s, 1) == (c != Ordering::Greater));
    let u = showdown(s);
    let p = s.pot as int;
    assert(p / 1 == p && p % 1 == 0);
    assert(p / 2 <= p) by (nonlinear_arith)
        requires
            p >= 0,
    ;
    assert forall|i: int| 0 <= i < 2 implies #[trigger] u.players[i].chips == s.players[i].chips
        + showdown_share(s, i) by {
        if c == Ordering::Equal {
            assert(p / 2 + p % 2 + p / 2 == p) by (nonlinear_arith)
                requires
                    p >= 0,
            ;
        }
    }
}

} // verus!
