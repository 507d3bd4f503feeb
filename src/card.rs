//! Playing cards and their two-glyph text form.

use vstd::prelude::*;

verus! {

/// One of the four French suits.
#[derive(Clone, Copy, PartialEq, Eq, Structural, Debug, Hash, PartialOrd, Ord)]
pub enum Suit {
    Spades,
    Hearts,
    Diamonds,
    Clubs,
}

/// The glyph that stands for a suit in card text.
pub open spec fn suit_glyph(s: Suit) -> char {
    match s {
        Suit::Spades => '♠',
        Suit::Hearts => '♥',
        Suit::Diamonds => '♦',
        Suit::Clubs => '♣',
    }
}

/// The suit a glyph stands for, if any.
pub open spec fn suit_of_glyph(c: char) -> Option<Suit> {
    if c == '♠' {
        Some(Suit::Spades)
    } else if c == '♥' {
        Some(Suit::Hearts)
    } else if c == '♦' {
        Some(Suit::Diamonds)
    } else if c == '♣' {
        Some(Suit::Clubs)
    } else {
        None
    }
}

/// Hearts and diamonds are red; spades and clubs are black.
pub open spec fn suit_is_red(s: Suit) -> bool {
    s == Suit::Hearts || s == Suit::Diamonds
}

impl Suit {
    #[must_use]
    pub fn to_char(self) -> (c: char)
        ensures
            c == suit_glyph(self),
    {
        match self {
            Suit::Spades => '♠',
            Suit::Hearts => '♥',
            Suit::Diamonds => '♦',
            Suit::Clubs => '♣',
        }
    }

    #[must_use]
    pub fn from_char(c: char) -> (r: Option<Suit>)
        ensures
            r == suit_of_glyph(c),
    {
        if c == '♠' {
            Some(Suit::Spades)
        } else if c == '♥' {
            Some(Suit::Hearts)
        } else if c == '♦' {
            Some(Suit::Diamonds)
        } else if c == '♣' {
            Some(Suit::Clubs)
        } else {
            None
        }
    }

    #[must_use]
    pub fn is_red(self) -> (r: bool)
        ensures
            r == suit_is_red(self),
    {
        match self {
            Suit::Hearts | Suit::Diamonds => true,
            _ => false,
        }
    }
}

/// A playing card; rank 2 to 10 as numbered, 11 jack, 12 queen, 13 king, 14 ace.
#[derive(Clone, Copy, PartialEq, Eq, Structural, Debug, Hash, PartialOrd, Ord)]
pub struct Card {
    pub rank: u8,
    pub suit: Suit,
}

impl Card {
    /// The rank is one of the thirteen that exist.
    pub open spec fn valid(self) -> bool {
        2 <= self.rank <= 14
    }

    #[must_use]
    pub fn new(rank: u8, suit: Suit) -> (c: Card)
        ensures
            c == (Card { rank, suit }),
    {
        Card { rank, suit }
    }

    #[must_use]
    pub fn is_red(self) -> (r: bool)
        ensures
            r == suit_is_red(self.suit),
    {
        self.suit.is_red()
    }

    /// The text of the card, such as `A♠` or `10♥`.
    #[must_use]
    pub fn to_string(&self) -> (s: String)
        requires
            self.valid(),
        ensures
            s@ == card_text(*self),
    {
        let mut s = String::new();
        s.append(rank_str(self.rank));
        s.append(suit_str(self.suit));
        s
    }

    /// Reads the text written by `to_string`; any other text gives `None`.
    #[must_use]
    pub fn from_string(s: &str) -> (r: Option<Card>)
        ensures
            r == parse_card(s@),
    {
        let n = s.unicode_len();
        if n < 2 {
            return None;
        }
        let suit = match Suit::from_char(s.get_char(n - 1)) {
            Some(suit) => suit,
            None => return None,
        };
        let rank: u8 = if n == 2 {
            match digit_rank(s.get_char(0)) {
                Some(r) => r,
                None => return None,
            }
        } else if n == 3 && s.get_char(0) == '1' && s.get_char(1) == '0' {
            10
        } else {
            return None;
        };
        proof {
            assert(s@.drop_last().len() == n - 1);
            assert(s@.drop_last()[0] == s@[0]);
            if n == 3 {
                assert(s@.drop_last()[1] == s@[1]);
            }
        }
        Some(Card { rank, suit })
    }
}

/// The rank a one-character token names: `2` to `9`, `J`, `Q`, `K`, `A`.
pub open spec fn rank_of_char(c: char) -> Option<u8> {
    if c == '2' {
        Some(2u8)
    } else if c == '3' {
        Some(3u8)
    } else if c == '4' {
        Some(4u8)
    } else if c == '5' {
        Some(5u8)
    } else if c == '6' {
        Some(6u8)
    } else if c == '7' {
        Some(7u8)
    } else if c == '8' {
        Some(8u8)
    } else if c == '9' {
        Some(9u8)
    } else if c == 'J' {
        Some(11u8)
    } else if c == 'Q' {
        Some(12u8)
    } else if c == 'K' {
        Some(13u8)
    } else if c == 'A' {
        Some(14u8)
    } else {
        None
    }
}

/// The rank a token names; `10` is the one token of two characters.
pub open spec fn rank_of_token(t: Seq<char>) -> Option<u8> {
    if t.len() == 1 {
        rank_of_char(t[0])
    } else if t.len() == 2 && t[0] == '1' && t[1] == '0' {
        Some(10u8)
    } else {
        None
    }
}

/// The token written for a rank.
pub open spec fn rank_token(rank: u8) -> Seq<char> {
    if rank == 10 {
        seq!['1', '0']
    } else if rank == 11 {
        seq!['J']
    } else if rank == 12 {
        seq!['Q']
    } else if rank == 13 {
        seq!['K']
    } else if rank == 14 {
        seq!['A']
    } else {
        seq![(rank + 48) as char]
    }
}

/// A card's text: its rank token followed by its suit glyph.
pub open spec fn card_text(c: Card) -> Seq<char> {
    rank_token(c.rank).push(suit_glyph(c.suit))
}

/// The card a text names: a rank token and then exactly one suit glyph.
pub open spec fn parse_card(s: Seq<char>) -> Option<Card> {
    if s.len() < 2 {
        None
    } else {
        match (rank_of_token(s.drop_last()), suit_of_glyph(s.last())) {
            (Some(rank), Some(suit)) => Some(Card { rank, suit }),
            _ => None,
        }
    }
}

fn digit_rank(c: char) -> (r: Option<u8>)
    ensures
        r == rank_of_char(c),
{
    match c {
        '2' => Some(2),
        '3' => Some(3),
        '4' => Some(4),
        '5' => Some(5),
        '6' => Some(6),
        '7' => Some(7),
        '8' => Some(8),
        '9' => Some(9),
        'J' => Some(11),
        'Q' => Some(12),
        'K' => Some(13),
        'A' => Some(14),
        _ => None,
    }
}

fn rank_str(rank: u8) -> (s: &'static str)
    requires
        2 <= rank <= 14,
    ensures
        s@ == rank_token(rank),
{
    proof {
        reveal_strlit("2");
        reveal_strlit("3");
        reveal_strlit("4");
        reveal_strlit("5");
        reveal_strlit("6");
        reveal_strlit("7");
        reveal_strlit("8");
        reveal_strlit("9");
        reveal_strlit("10");
        reveal_strlit("J");
        reveal_strlit("Q");
        reveal_strlit("K");
        reveal_strlit("A");
    }
    let s = match rank {
        2 => "2",
        3 => "3",
        4 => "4",
        5 => "5",
        6 => "6",
        7 => "7",
        8 => "8",
        9 => "9",
        10 => "10",
        11 => "J",
        12 => "Q",
        13 => "K",
        _ => "A",
    };
    assert(s@ =~= rank_token(rank));
    s
}

fn suit_str(suit: Suit) -> (s: &'static str)
    ensures
        s@ == seq![suit_glyph(suit)],
{
    proof {
        reveal_strlit("♠");
        reveal_strlit("♥");
        reveal_strlit("♦");
        reveal_strlit("♣");
    }
    let s = match suit {
        Suit::Spades => "♠",
        Suit::Hearts => "♥",
        Suit::Diamonds => "♦",
        Suit::Clubs => "♣",
    };
    assert(s@ =~= seq![suit_glyph(suit)]);
    s
}

/// Reading a card's text gives the card back.
pub proof fn lemma_parse_card_text(c: Card)
    requires
        c.valid(),
    ensures
        parse_card(card_text(c)) == Some(c),
{
    let t = card_text(c);
    assert(t.drop_last() =~= rank_token(c.rank));
    assert(t.last() == suit_glyph(c.suit));
}

/// A text that reads as a card is exactly that card's text, and the card is valid.
pub proof fn lemma_parse_card_exact(s: Seq<char>)
    requires
        parse_card(s) is Some,
    ensures
        parse_card(s)->0.valid(),
        card_text(parse_card(s)->0) == s,
{
    let c = parse_card(s)->0;
    let t = s.drop_last();
    assert(rank_token(c.rank) =~= t);
    assert(s =~= t.push(s.last()));
}

} // verus!
