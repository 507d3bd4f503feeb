use poker_core::{Card, Deck, GameStage, PlayerAction, PokerError, PokerGameState, Suit, INITIAL_CHIPS};

fn deck_of(list: &[(u8, Suit)]) -> Deck {
    Deck::from_cards(list.iter().map(|&(r, s)| Card::new(r, s)).collect()).unwrap()
}

/// Alice 2♣ 3♦, Bob 2♦ 3♣, and a royal flush in spades on the board.
fn tied_deck() -> Deck {
    deck_of(&[
        (2, Suit::Clubs),
        (3, Suit::Diamonds),
        (2, Suit::Diamonds),
        (3, Suit::Clubs),
        (14, Suit::Spades),
        (13, Suit::Spades),
        (12, Suit::Spades),
        (11, Suit::Spades),
        (10, Suit::Spades),
        (4, Suit::Hearts),
        (5, Suit::Hearts),
        (6, Suit::Hearts),
        (7, Suit::Hearts),
    ])
}

/// Alice a pair of aces, Bob 7♦ 2♣, and a board that helps nobody.
fn alice_wins_deck() -> Deck {
    deck_of(&[
        (14, Suit::Spades),
        (14, Suit::Hearts),
        (7, Suit::Diamonds),
        (2, Suit::Clubs),
        (9, Suit::Clubs),
        (10, Suit::Diamonds),
        (4, Suit::Spades),
        (12, Suit::Hearts),
        (3, Suit::Diamonds),
        (5, Suit::Hearts),
        (6, Suit::Hearts),
        (8, Suit::Hearts),
        (13, Suit::Clubs),
    ])
}

fn chips(g: &PokerGameState) -> (u64, u64) {
    (g.get_players()[0].get_chips(), g.get_players()[1].get_chips())
}

fn total(g: &PokerGameState) -> u64 {
    let (a, b) = chips(g);
    a + b + g.get_pot()
}

#[test]
fn new_table_waits_for_the_first_hand() {
    let g = PokerGameState::new();
    assert_eq!(g.get_stage(), GameStage::WaitingToStart);
    assert_eq!(g.get_stage_string(), "Waiting");
    assert_eq!(g.get_players()[0].get_name(), "Alice");
    assert_eq!(g.get_players()[1].get_name(), "Bob");
    assert_eq!(chips(&g), (INITIAL_CHIPS, INITIAL_CHIPS));
    assert_eq!(g.get_pot(), 0);
    assert!(!g.is_pending_action());
    assert_eq!(g.deck_len(), 52);
    assert_eq!(g.get_bet_amount(), 50);
    assert_eq!(g.get_min_bet(), 20);
    assert_eq!(g.get_max_bet(), 500);
    assert_eq!(g.get_pot_odds(), (0, 1));
    assert_eq!(PokerGameState::default().get_stage(), GameStage::WaitingToStart);
}

#[test]
fn no_action_is_taken_before_a_hand() {
    let mut g = PokerGameState::new();
    assert_eq!(g.perform_action(PlayerAction::Check), Err(PokerError::NoPendingAction));
}

#[test]
fn a_hand_deals_posts_blinds_and_gives_the_small_blind_the_turn() {
    let mut g = PokerGameState::new();
    assert_eq!(g.start_new_hand(), Ok(()));
    assert_eq!(g.get_stage(), GameStage::Preflop);
    assert_eq!(g.get_stage_string(), "Preflop");
    assert_eq!(g.get_pot(), 30);
    assert_eq!(chips(&g), (INITIAL_CHIPS - 20, INITIAL_CHIPS - 10));
    assert_eq!(g.get_players()[0].get_hole_cards().len(), 2);
    assert_eq!(g.get_players()[1].get_hole_cards().len(), 2);
    assert_eq!(g.get_community_cards().len(), 0);
    assert_eq!(g.deck_len(), 47);
    assert_eq!(g.get_current_player(), 1);
    assert_eq!(g.get_to_call(), 20);
    assert_eq!(g.get_min_bet(), 40);
    assert_eq!(g.get_call_amount(), 10);
    assert!(g.is_pending_action());
    assert_eq!(g.start_new_hand(), Err(PokerError::HandInProgress));
    assert_eq!(total(&g), 2 * INITIAL_CHIPS);
}

#[test]
fn check_is_refused_while_a_bet_is_owed_and_bet_while_one_is_open() {
    let mut g = PokerGameState::new();
    g.start_new_hand_with_deck(tied_deck()).unwrap();
    assert!(!g.can_check());
    assert!(g.can_call());
    assert!(!g.can_bet());
    assert!(g.can_raise());
    assert!(g.can_fold());
    assert_eq!(g.perform_action(PlayerAction::Check), Err(PokerError::IllegalCheck));
    assert_eq!(g.perform_action(PlayerAction::Bet), Err(PokerError::UseRaiseInstead));
    assert_eq!(g.get_pot(), 30);
    assert_eq!(g.get_current_player(), 1);
    assert_eq!(g.perform_action(PlayerAction::Call), Ok("Bob called 10".to_string()));
    assert_eq!(g.get_stage(), GameStage::Flop);
    assert!(g.can_check());
    assert_eq!(g.perform_action(PlayerAction::Raise), Err(PokerError::RaiseTooSmall));
}

#[test]
fn streets_add_three_one_and_one_cards_then_a_tie_splits_the_pot() {
    let mut g = PokerGameState::new();
    g.start_new_hand_with_deck(tied_deck()).unwrap();
    assert_eq!(g.perform_action(PlayerAction::Call), Ok("Bob called 10".to_string()));
    assert_eq!(g.get_stage(), GameStage::Flop);
    assert_eq!(
        g.get_community_cards(),
        &[Card::new(14, Suit::Spades), Card::new(13, Suit::Spades), Card::new(12, Suit::Spades)][..]
    );
    assert_eq!(g.get_to_call(), 0);
    assert_eq!(g.get_players()[0].get_current_bet(), 0);
    assert_eq!(g.get_current_player(), 1);
    assert_eq!(g.perform_action(PlayerAction::Check), Ok("Bob checked".to_string()));
    assert_eq!(g.get_stage(), GameStage::Flop);
    assert_eq!(g.get_current_player(), 0);
    assert_eq!(g.perform_action(PlayerAction::Check), Ok("Alice checked".to_string()));
    assert_eq!(g.get_stage(), GameStage::Turn);
    assert_eq!(g.get_community_cards().len(), 4);
    g.perform_action(PlayerAction::Check).unwrap();
    g.perform_action(PlayerAction::Check).unwrap();
    assert_eq!(g.get_stage(), GameStage::River);
    assert_eq!(g.get_community_cards().len(), 5);
    assert_eq!(g.get_community_cards()[4], Card::new(10, Suit::Spades));
    g.perform_action(PlayerAction::Check).unwrap();
    g.perform_action(PlayerAction::Check).unwrap();
    assert_eq!(g.get_stage(), GameStage::HandComplete);
    assert_eq!(g.get_stage_string(), "Complete");
    assert_eq!(g.get_community_cards().len(), 5);
    assert_eq!(g.get_pot(), 0);
    assert_eq!(chips(&g), (INITIAL_CHIPS, INITIAL_CHIPS));
    assert!(!g.is_pending_action());
    assert_eq!(g.get_dealer_position(), 1);
    assert_eq!(g.perform_action(PlayerAction::Check), Err(PokerError::NoPendingAction));
}

#[test]
fn a_fold_gives_the_other_player_the_whole_pot() {
    let mut g = PokerGameState::new();
    g.start_new_hand_with_deck(tied_deck()).unwrap();
    assert_eq!(g.perform_action(PlayerAction::Fold), Ok("Bob folded".to_string()));
    assert_eq!(g.get_stage(), GameStage::HandComplete);
    assert_eq!(g.get_pot(), 0);
    assert_eq!(chips(&g), (INITIAL_CHIPS + 10, INITIAL_CHIPS - 10));
    assert_eq!(g.get_community_cards().len(), 0);
    assert!(!g.is_pending_action());
    assert_eq!(g.get_dealer_position(), 1);
}

#[test]
fn odd_pot_remainder_goes_to_the_lower_seat() {
    let mut g = PokerGameState::new();
    g.start_new_hand_with_deck(tied_deck()).unwrap();
    g.perform_action(PlayerAction::Call).unwrap();
    g.set_bet_amount(25);
    assert_eq!(g.get_bet_amount(), 25);
    assert_eq!(g.perform_action(PlayerAction::Bet), Ok("Bob bet 25".to_string()));
    assert_eq!(g.perform_action(PlayerAction::Call), Ok("Alice called 25".to_string()));
    assert_eq!(g.get_stage(), GameStage::Turn);
    g.perform_action(PlayerAction::Check).unwrap();
    assert_eq!(g.perform_action(PlayerAction::Bet), Ok("Alice bet 25".to_string()));
    g.perform_action(PlayerAction::Fold).unwrap();
    assert_eq!(chips(&g), (10045, 9955));

    g.start_new_hand_with_deck(tied_deck()).unwrap();
    assert_eq!(g.get_current_player(), 0);
    assert_eq!(chips(&g), (10035, 9935));
    g.set_bet_amount(9990);
    assert_eq!(g.perform_action(PlayerAction::Raise), Ok("Alice raised to 10000".to_string()));
    assert_eq!(g.perform_action(PlayerAction::Call), Ok("Bob called 9935".to_string()));
    assert!(g.get_players()[1].is_all_in());
    assert_eq!(g.get_pot(), 19955);
    assert_eq!(g.get_stage(), GameStage::Flop);
    assert_eq!(g.get_current_player(), 0);
    g.perform_action(PlayerAction::Check).unwrap();
    g.perform_action(PlayerAction::Check).unwrap();
    g.perform_action(PlayerAction::Check).unwrap();
    assert_eq!(g.get_stage(), GameStage::HandComplete);
    assert_eq!(chips(&g), (45 + 9978, 9977));
    assert_eq!(total(&g), 2 * INITIAL_CHIPS);
}

#[test]
fn all_in_and_call_runs_out_the_board() {
    let mut g = PokerGameState::new();
    g.start_new_hand_with_deck(alice_wins_deck()).unwrap();
    assert_eq!(g.perform_action(PlayerAction::AllIn), Ok("Bob went all-in with 9990".to_string()));
    assert_eq!(g.get_to_call(), 10000);
    assert_eq!(g.get_call_amount(), 9980);
    g.update_pot_odds();
    assert_eq!(g.get_pot_odds(), (9980, 20000));
    assert_eq!(g.perform_action(PlayerAction::Call), Ok("Alice called 9980".to_string()));
    assert_eq!(g.get_stage(), GameStage::HandComplete);
    assert_eq!(g.get_community_cards().len(), 5);
    assert_eq!(chips(&g), (2 * INITIAL_CHIPS, 0));
    assert_eq!(g.start_new_hand(), Err(PokerError::InsufficientPlayers));
    assert_eq!(g.get_stage(), GameStage::HandComplete);
}

#[test]
fn a_short_deck_is_refused_untouched() {
    let mut g = PokerGameState::new();
    let short = deck_of(&[
        (2, Suit::Clubs),
        (3, Suit::Clubs),
        (4, Suit::Clubs),
        (5, Suit::Clubs),
        (6, Suit::Clubs),
        (7, Suit::Clubs),
        (8, Suit::Clubs),
        (9, Suit::Clubs),
        (10, Suit::Clubs),
        (11, Suit::Clubs),
        (12, Suit::Clubs),
        (13, Suit::Clubs),
    ]);
    assert_eq!(g.start_new_hand_with_deck(short), Err(PokerError::DealFailure));
    assert_eq!(g.get_stage(), GameStage::WaitingToStart);
    assert!(!g.is_pending_action());
}

#[test]
fn bet_size_is_clamped_into_the_bounds() {
    let mut g = PokerGameState::new();
    g.start_new_hand_with_deck(tied_deck()).unwrap();
    assert_eq!(g.get_min_bet(), 40);
    assert_eq!(g.get_max_bet(), 9990);
    g.set_bet_amount(5);
    assert_eq!(g.get_bet_amount(), 40);
    g.set_bet_amount(1_000_000);
    assert_eq!(g.get_bet_amount(), 9990);
    g.set_bet_amount(300);
    assert_eq!(g.get_bet_amount(), 300);
    assert_eq!(g.perform_action(PlayerAction::Raise), Ok("Bob raised to 310".to_string()));
    assert_eq!(g.get_to_call(), 310);
    assert_eq!(g.get_pot(), 330);
    assert_eq!(total(&g), 2 * INITIAL_CHIPS);
}

#[test]
fn pot_odds_are_zero_with_nothing_to_call() {
    let mut g = PokerGameState::new();
    g.start_new_hand_with_deck(tied_deck()).unwrap();
    g.update_pot_odds();
    assert_eq!(g.get_pot_odds(), (10, 40));
    g.perform_action(PlayerAction::Call).unwrap();
    g.update_pot_odds();
    assert_eq!(g.get_pot_odds(), (0, 1));
}

#[test]
fn error_messages_are_readable() {
    assert_eq!(PokerError::IllegalCheck.message(), "Cannot check when a bet is pending");
    assert_eq!(PokerError::InsufficientChips.message(), "Insufficient chips");
}

/// Bob a pair of aces, Alice 7♦ 2♣, and a board that helps nobody.
fn bob_wins_deck() -> Deck {
    deck_of(&[
        (7, Suit::Diamonds),
        (2, Suit::Clubs),
        (14, Suit::Spades),
        (14, Suit::Hearts),
        (9, Suit::Clubs),
        (10, Suit::Diamonds),
        (4, Suit::Spades),
        (12, Suit::Hearts),
        (3, Suit::Diamonds),
        (5, Suit::Hearts),
        (6, Suit::Hearts),
        (8, Suit::Hearts),
        (13, Suit::Clubs),
    ])
}

#[test]
fn a_big_blind_larger_than_the_stack_is_refused() {
    let mut g = PokerGameState::new();
    g.start_new_hand_with_deck(bob_wins_deck()).unwrap();
    g.perform_action(PlayerAction::Call).unwrap();
    g.set_bet_amount(9955);
    assert_eq!(g.perform_action(PlayerAction::Bet), Ok("Bob bet 9955".to_string()));
    g.perform_action(PlayerAction::Call).unwrap();
    for _ in 0..4 {
        g.perform_action(PlayerAction::Check).unwrap();
    }
    assert_eq!(g.get_stage(), GameStage::HandComplete);
    assert_eq!(chips(&g), (25, 19975));

    g.start_new_hand_with_deck(bob_wins_deck()).unwrap();
    assert_eq!(g.perform_action(PlayerAction::Fold), Ok("Alice folded".to_string()));
    assert_eq!(chips(&g), (15, 19985));
    assert_eq!(g.get_dealer_position(), 0);

    assert_eq!(g.start_new_hand(), Err(PokerError::InsufficientChips));
    assert_eq!(g.get_stage(), GameStage::HandComplete);
    assert_eq!(chips(&g), (15, 19985));
}

#[test]
fn too_few_funded_players_is_reported_even_mid_hand() {
    let mut g = PokerGameState::new();
    g.start_new_hand_with_deck(tied_deck()).unwrap();
    g.set_bet_amount(9985);
    assert_eq!(g.perform_action(PlayerAction::Raise), Ok("Bob raised to 9995".to_string()));
    assert!(g.is_pending_action());
    assert_eq!(chips(&g), (INITIAL_CHIPS - 20, 5));
    assert_eq!(g.start_new_hand(), Err(PokerError::InsufficientPlayers));
    assert_eq!(g.get_stage(), GameStage::Preflop);
    assert_eq!(g.get_pot(), 10015);
}

#[test]
fn every_error_has_its_description() {
    assert_eq!(PokerError::InsufficientPlayers.message(), "Not enough players with sufficient chips");
    assert_eq!(PokerError::NoPendingAction.message(), "No pending action");
    assert_eq!(PokerError::PlayerCannotAct.message(), "Player cannot act");
    assert_eq!(PokerError::UseRaiseInstead.message(), "Use Raise action instead of Bet when a bet is pending");
    assert_eq!(PokerError::RaiseTooSmall.message(), "Raise must be greater than current bet");
    assert_eq!(PokerError::DealFailure.message(), "Failed to deal cards");
    assert_eq!(PokerError::HandInProgress.message(), "A hand is already in progress");
}
