use poker_core::{Card, Player, PokerError, Suit};

#[test]
fn lib_test_player_betting() {
    let mut player = Player::new("Test".to_string(), 1000);
    assert_eq!(player.get_chips(), 1000);

    let result = player.bet(500);
    assert!(result.is_ok());
    assert_eq!(player.get_chips(), 500);
    assert_eq!(player.get_current_bet(), 500);
    assert!(!player.is_all_in());

    let result = player.bet(500);
    assert!(result.is_ok());
    assert_eq!(player.get_chips(), 0);
    assert!(player.is_all_in());

    let result = player.bet(100);
    assert!(result.is_err());
}

#[test]
fn main_test_player_betting() {
    let mut player = Player::new("Test".to_string(), 1000);
    assert_eq!(player.get_chips(), 1000);

    let result = player.bet(500);
    assert!(result.is_ok());
    assert_eq!(player.get_chips(), 500);
    assert_eq!(player.get_current_bet(), 500);
    assert!(!player.is_all_in());

    let result = player.bet(500);
    assert!(result.is_ok());
    assert_eq!(player.get_chips(), 0);
    assert!(player.is_all_in());

    let result = player.bet(100);
    assert!(result.is_err());
}

#[test]
fn bet_refusal_names_insufficient_chips_and_changes_nothing() {
    let mut player = Player::new("Ann".to_string(), 30);
    assert_eq!(player.bet(31), Err(PokerError::InsufficientChips));
    assert_eq!(player.get_chips(), 30);
    assert_eq!(player.get_current_bet(), 0);
    assert!(!player.has_acted());
    assert_eq!(player.bet(10), Ok(10));
    assert!(player.has_acted());
    assert_eq!(player.get_current_bet(), 10);
}

#[test]
fn collect_reset_and_flags() {
    let mut player = Player::new("Ann".to_string(), 100);
    assert_eq!(player.get_name(), "Ann");
    player.receive_cards(vec![Card::new(14, Suit::Spades), Card::new(13, Suit::Spades)]);
    assert_eq!(player.get_hole_cards().len(), 2);
    let _ = player.bet(100);
    assert!(player.is_all_in());
    player.set_folded(true);
    assert!(player.is_folded());
    player.collect_pot(250);
    assert_eq!(player.get_chips(), 250);
    player.reset_for_new_hand();
    assert!(player.get_hole_cards().is_empty());
    assert_eq!(player.get_current_bet(), 0);
    assert!(!player.is_folded() && !player.is_all_in() && !player.has_acted());
    assert_eq!(player.get_chips(), 250);
    assert_eq!(player.get_name(), "Ann");
    player.set_has_acted(true);
    assert!(player.has_acted());
    let _ = player.bet(50);
    player.reset_for_new_street();
    assert_eq!(player.get_current_bet(), 0);
    assert!(!player.has_acted());
    assert_eq!(player.get_chips(), 200);
}
