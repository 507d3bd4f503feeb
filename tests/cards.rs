use poker_core::{Card, Suit};

#[test]
fn lib_test_card_to_string() {
    let ace_spades = Card::new(14, Suit::Spades);
    assert_eq!(ace_spades.to_string(), "A♠");

    let ten_hearts = Card::new(10, Suit::Hearts);
    assert_eq!(ten_hearts.to_string(), "10♥");

    let two_clubs = Card::new(2, Suit::Clubs);
    assert_eq!(two_clubs.to_string(), "2♣");
}

#[test]
fn lib_test_card_from_string() {
    assert_eq!(Card::from_string("A♠"), Some(Card::new(14, Suit::Spades)));
    assert_eq!(Card::from_string("10♥"), Some(Card::new(10, Suit::Hearts)));
    assert_eq!(Card::from_string("2♣"), Some(Card::new(2, Suit::Clubs)));
    assert_eq!(Card::from_string("invalid"), None);
}

#[test]
fn lib_test_card_is_red() {
    assert!(Card::new(5, Suit::Hearts).is_red());
    assert!(Card::new(5, Suit::Diamonds).is_red());
    assert!(!Card::new(5, Suit::Spades).is_red());
    assert!(!Card::new(5, Suit::Clubs).is_red());
}

#[test]
fn main_test_card_to_string() {
    let ace_spades = Card::new(14, Suit::Spades);
    assert_eq!(ace_spades.to_string(), "A♠");

    let ten_hearts = Card::new(10, Suit::Hearts);
    assert_eq!(ten_hearts.to_string(), "10♥");

    let two_clubs = Card::new(2, Suit::Clubs);
    assert_eq!(two_clubs.to_string(), "2♣");
}

#[test]
fn main_test_card_from_string() {
    assert_eq!(Card::from_string("A♠"), Some(Card::new(14, Suit::Spades)));
    assert_eq!(Card::from_string("10♥"), Some(Card::new(10, Suit::Hearts)));
    assert_eq!(Card::from_string("2♣"), Some(Card::new(2, Suit::Clubs)));
    assert_eq!(Card::from_string("invalid"), None);
}

#[test]
fn main_test_card_is_red() {
    assert!(Card::new(5, Suit::Hearts).is_red());
    assert!(Card::new(5, Suit::Diamonds).is_red());
    assert!(!Card::new(5, Suit::Spades).is_red());
    assert!(!Card::new(5, Suit::Clubs).is_red());
}

#[test]
fn every_card_text_reads_back() {
    for suit in [Suit::Spades, Suit::Hearts, Suit::Diamonds, Suit::Clubs] {
        for rank in 2..=14u8 {
            let card = Card::new(rank, suit);
            assert_eq!(Card::from_string(&card.to_string()), Some(card));
        }
    }
}

#[test]
fn card_text_of_each_rank_token() {
    assert_eq!(Card::new(11, Suit::Diamonds).to_string(), "J♦");
    assert_eq!(Card::new(12, Suit::Clubs).to_string(), "Q♣");
    assert_eq!(Card::new(13, Suit::Hearts).to_string(), "K♥");
    assert_eq!(Card::new(9, Suit::Spades).to_string(), "9♠");
}

#[test]
fn card_text_other_tokens_are_rejected() {
    assert_eq!(Card::from_string(""), None);
    assert_eq!(Card::from_string("A"), None);
    assert_eq!(Card::from_string("♠"), None);
    assert_eq!(Card::from_string("05♠"), None);
    assert_eq!(Card::from_string("1♠"), None);
    assert_eq!(Card::from_string("11♠"), None);
    assert_eq!(Card::from_string("AA♠"), None);
    assert_eq!(Card::from_string("A♠♠"), None);
    assert_eq!(Card::from_string("Ax"), None);
    assert_eq!(Card::from_string("a♠"), None);
}

#[test]
fn suit_glyphs_round_trip() {
    for suit in [Suit::Spades, Suit::Hearts, Suit::Diamonds, Suit::Clubs] {
        assert_eq!(Suit::from_char(suit.to_char()), Some(suit));
    }
    assert_eq!(Suit::Spades.to_char(), '♠');
    assert_eq!(Suit::Hearts.to_char(), '♥');
    assert_eq!(Suit::Diamonds.to_char(), '♦');
    assert_eq!(Suit::Clubs.to_char(), '♣');
    assert_eq!(Suit::from_char('S'), None);
    assert!(Suit::Hearts.is_red() && Suit::Diamonds.is_red());
    assert!(!Suit::Spades.is_red() && !Suit::Clubs.is_red());
}
