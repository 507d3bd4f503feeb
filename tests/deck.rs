use poker_core::{Card, Deck, Suit};

#[test]
fn lib_test_deck_creation() {
    let deck = Deck::new();
    assert_eq!(deck.len(), 52);
}

#[test]
fn lib_test_deck_shuffle() {
    let mut deck1 = Deck::new();
    let mut deck2 = Deck::new();
    deck1.shuffle();
    deck2.shuffle();

    let cards1: Vec<String> = deck1.cards().iter().map(|c| c.to_string()).collect();
    let cards2: Vec<String> = deck2.cards().iter().map(|c| c.to_string()).collect();

    assert_ne!(cards1, cards2);
}

#[test]
fn lib_test_deck_deal() {
    let mut deck = Deck::new();
    let cards = deck.deal(5).unwrap();
    assert_eq!(cards.len(), 5);
    assert_eq!(deck.len(), 47);
}

#[test]
fn lib_test_deck_deal_insufficient() {
    let mut deck = Deck::new();
    let _ = deck.deal(50).unwrap();
    assert!(deck.deal(5).is_none());
}

#[test]
fn main_test_deck_creation() {
    let deck = Deck::new();
    assert_eq!(deck.len(), 52);
}

#[test]
fn main_test_deck_shuffle() {
    let mut deck1 = Deck::new();
    let mut deck2 = Deck::new();
    deck1.shuffle();
    deck2.shuffle();

    let cards1: Vec<String> = deck1.cards().iter().map(|c| c.to_string()).collect();
    let cards2: Vec<String> = deck2.cards().iter().map(|c| c.to_string()).collect();

    assert_ne!(cards1, cards2);
}

#[test]
fn main_test_deck_deal() {
    let mut deck = Deck::new();
    let cards = deck.deal(5).unwrap();
    assert_eq!(cards.len(), 5);
    assert_eq!(deck.len(), 47);
}

#[test]
fn main_test_deck_deal_insufficient() {
    let mut deck = Deck::new();
    let _ = deck.deal(50).unwrap();
    assert!(deck.deal(5).is_none());
}

#[test]
fn fresh_deck_holds_each_card_once_in_canonical_order() {
    let deck = Deck::new();
    let cards = deck.cards();
    assert_eq!(cards.len(), 52);
    for i in 0..cards.len() {
        for j in (i + 1)..cards.len() {
            assert_ne!(cards[i], cards[j]);
        }
    }
    assert_eq!(cards[0], Card::new(2, Suit::Spades));
    assert_eq!(cards[12], Card::new(14, Suit::Spades));
    assert_eq!(cards[13], Card::new(2, Suit::Hearts));
    assert_eq!(cards[51], Card::new(14, Suit::Clubs));
    assert!(!deck.is_empty());
    assert_eq!(Deck::default().cards(), deck.cards());
}

#[test]
fn shuffle_keeps_the_same_cards() {
    let mut deck = Deck::new();
    deck.shuffle();
    let mut shuffled: Vec<Card> = deck.cards().to_vec();
    shuffled.sort();
    let mut fresh: Vec<Card> = Deck::new().cards().to_vec();
    fresh.sort();
    assert_eq!(shuffled, fresh);
}

#[test]
fn deals_follow_each_other_without_overlap() {
    let mut deck = Deck::new();
    let first = deck.deal(3).unwrap();
    let second = deck.deal(4).unwrap();
    assert_eq!(first, vec![Card::new(2, Suit::Spades), Card::new(3, Suit::Spades), Card::new(4, Suit::Spades)]);
    assert_eq!(second[0], Card::new(5, Suit::Spades));
    for c in &first {
        assert!(!second.contains(c));
        assert!(!deck.cards().contains(c));
    }
    for c in &second {
        assert!(!deck.cards().contains(c));
    }
    assert_eq!(deck.len(), 45);
}

#[test]
fn failed_deal_leaves_the_deck_alone() {
    let mut deck = Deck::new();
    let _ = deck.deal(50).unwrap();
    let before: Vec<Card> = deck.cards().to_vec();
    assert!(deck.deal(3).is_none());
    assert_eq!(deck.cards(), &before[..]);
    assert_eq!(deck.deal(2).unwrap().len(), 2);
    assert!(deck.is_empty());
    assert!(deck.deal(0).unwrap().is_empty());
}

#[test]
fn burn_takes_the_bottom_card() {
    let mut deck = Deck::new();
    assert_eq!(deck.burn(), Some(Card::new(14, Suit::Clubs)));
    assert_eq!(deck.len(), 51);
    assert_eq!(deck.cards()[0], Card::new(2, Suit::Spades));
    let mut empty = Deck::from_cards(vec![]).unwrap();
    assert_eq!(empty.burn(), None);
}

#[test]
fn from_cards_accepts_only_distinct_real_cards() {
    let ok = Deck::from_cards(vec![Card::new(2, Suit::Spades), Card::new(3, Suit::Spades)]).unwrap();
    assert_eq!(ok.cards(), &[Card::new(2, Suit::Spades), Card::new(3, Suit::Spades)][..]);
    assert!(Deck::from_cards(vec![Card::new(2, Suit::Spades), Card::new(2, Suit::Spades)]).is_none());
    assert!(Deck::from_cards(vec![Card::new(1, Suit::Spades)]).is_none());
    assert!(Deck::from_cards(vec![Card::new(15, Suit::Hearts)]).is_none());
}

#[test]
fn shuffle_with_follows_the_draws() {
    let a = Card::new(2, Suit::Spades);
    let b = Card::new(3, Suit::Spades);
    let c = Card::new(4, Suit::Spades);
    let mut deck = Deck::from_cards(vec![a, b, c]).unwrap();
    deck.shuffle_with(&vec![0, 0, 1]);
    assert_eq!(deck.cards(), &[c, a, b][..]);
    let mut same = Deck::from_cards(vec![a, b, c]).unwrap();
    same.shuffle_with(&vec![0, 1, 2]);
    assert_eq!(same.cards(), &[a, b, c][..]);
    let mut reversed = Deck::from_cards(vec![a, b, c]).unwrap();
    reversed.shuffle_with(&vec![0, 1, 0]);
    assert_eq!(reversed.cards(), &[c, b, a][..]);
}
