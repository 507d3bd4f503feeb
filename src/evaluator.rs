//! Best-hand evaluation over up to seven cards, and the order on evaluated hands.

use std::cmp::Ordering;
use vstd::prelude::*;

use crate::card::{Card, Suit};

verus! {

/// The hand categories, weakest first.
#[derive(Clone, Copy, PartialEq, Eq, Structural, Debug, Hash, PartialOrd, Ord)]
pub enum HandRank {
    HighCard,
    Pair,
    TwoPair,
    ThreeOfAKind,
    Straight,
    Flush,
    FullHouse,
    FourOfAKind,
    StraightFlush,
    RoyalFlush,
}

/// The ordinal of a category, 0 for high card up to 9 for a royal flush.
pub open spec fn rank_value(r: HandRank) -> nat {
    match r {
        HandRank::HighCard => 0,
        HandRank::Pair => 1,
        HandRank::TwoPair => 2,
        HandRank::ThreeOfAKind => 3,
        HandRank::Straight => 4,
        HandRank::Flush => 5,
        HandRank::FullHouse => 6,
        HandRank::FourOfAKind => 7,
        HandRank::StraightFlush => 8,
        HandRank::RoyalFlush => 9,
    }
}

impl HandRank {
    #[must_use]
    pub fn value(self) -> (v: u8)
        ensures
            v == rank_value(self),
    {
        match self {
            HandRank::HighCard => 0,
            HandRank::Pair => 1,
            HandRank::TwoPair => 2,
            HandRank::ThreeOfAKind => 3,
            HandRank::Straight => 4,
            HandRank::Flush => 5,
            HandRank::FullHouse => 6,
            HandRank::FourOfAKind => 7,
            HandRank::StraightFlush => 8,
            HandRank::RoyalFlush => 9,
        }
    }
}

/// An evaluated hand as the contracts see it.
pub struct HandValue {
    pub rank: HandRank,
    pub primary: Seq<u8>,
    pub kickers: Seq<u8>,
}

/// A category with the ranks that make it and the kickers that break ties.
#[derive(Clone, Debug, PartialEq, Eq, PartialOrd, Ord)]
pub struct EvaluatedHand {
    pub rank: HandRank,
    pub primary_values: Vec<u8>,
    pub kickers: Vec<u8>,
}

impl View for EvaluatedHand {
    type V = HandValue;

    open spec fn view(&self) -> HandValue {
        HandValue { rank: self.rank, primary: self.primary_values@, kickers: self.kickers@ }
    }
}

/// Lexicographic order on rank lists; a proper prefix comes first.
pub open spec fn seq_cmp(a: Seq<u8>, b: Seq<u8>) -> Ordering
    decreases a.len(),
{
    if a.len() == 0 {
        if b.len() == 0 {
            Ordering::Equal
        } else {
            Ordering::Less
        }
    } else if b.len() == 0 {
        Ordering::Greater
    } else if a[0] < b[0] {
        Ordering::Less
    } else if a[0] > b[0] {
        Ordering::Greater
    } else {
        seq_cmp(a.drop_first(), b.drop_first())
    }
}

/// Hands compare by category, then by primary values, then by kickers.
pub open spec fn hand_cmp(a: HandValue, b: HandValue) -> Ordering {
    if rank_value(a.rank) < rank_value(b.rank) {
        Ordering::Less
    } else if rank_value(a.rank) > rank_value(b.rank) {
        Ordering::Greater
    } else if seq_cmp(a.primary, b.primary) != Ordering::Equal {
        seq_cmp(a.primary, b.primary)
    } else {
        seq_cmp(a.kickers, b.kickers)
    }
}

/// Every rank list is equal to itself.
pub proof fn lemma_seq_cmp_refl(a: Seq<u8>)
    ensures
        seq_cmp(a, a) == Ordering::Equal,
    decreases a.len(),
{
    if a.len() > 0 {
        lemma_seq_cmp_refl(a.drop_first());
    }
}

/// Swapping the lists turns `Less` into `Greater` and back, and keeps `Equal`;
/// `Equal` holds only of equal lists.
pub proof fn lemma_seq_cmp_flip(a: Seq<u8>, b: Seq<u8>)
    ensures
        seq_cmp(a, b) == Ordering::Less <==> seq_cmp(b, a) == Ordering::Greater,
        seq_cmp(a, b) == Ordering::Equal <==> seq_cmp(b, a) == Ordering::Equal,
        seq_cmp(a, b) == Ordering::Equal ==> a == b,
    decreases a.len(),
{
    if a.len() > 0 && b.len() > 0 {
        lemma_seq_cmp_flip(a.drop_first(), b.drop_first());
        if seq_cmp(a, b) == Ordering::Equal {
            assert(a =~= seq![a[0]] + a.drop_first());
            assert(b =~= seq![b[0]] + b.drop_first());
        }
    }
}

/// The order on hands: each hand ties with itself, and swapping two hands
/// swaps `Less` and `Greater`.
pub proof fn lemma_hand_cmp_order(a: HandValue, b: HandValue)
    ensures
        hand_cmp(a, a) == Ordering::Equal,
        hand_cmp(a, b) == Ordering::Less <==> hand_cmp(b, a) == Ordering::Greater,
        hand_cmp(a, b) == Ordering::Equal <==> hand_cmp(b, a) == Ordering::Equal,
{
    lemma_seq_cmp_refl(a.primary);
    lemma_seq_cmp_refl(a.kickers);
    lemma_seq_cmp_flip(a.primary, b.primary);
    lemma_seq_cmp_flip(a.kickers, b.kickers);
}

fn cmp_ranks(a: &Vec<u8>, b: &Vec<u8>) -> (o: Ordering)
    ensures
        o == seq_cmp(a@, b@),
{
    let mut i: usize = 0;
    assert(a@.skip(0) =~= a@);
    assert(b@.skip(0) =~= b@);
    while i < a.len() && i < b.len()
        invariant
            i <= a@.len(),
            i <= b@.len(),
            seq_cmp(a@, b@) == seq_cmp(a@.skip(i as int), b@.skip(i as int)),
        decreases a@.len() - i,
    {
        if a[i] < b[i] {
            return Ordering::Less;
        }
        if a[i] > b[i] {
            return Ordering::Greater;
        }
        assert(a@.skip(i as int).drop_first() =~= a@.skip(i + 1));
        assert(b@.skip(i as int).drop_first() =~= b@.skip(i + 1));
        i = i + 1;
    }
    if i < a.len() {
        Ordering::Greater
    } else if i < b.len() {
        Ordering::Less
    } else {
        Ordering::Equal
    }
}

impl EvaluatedHand {
    #[must_use]
    pub fn new(rank: HandRank, primary_values: Vec<u8>, kickers: Vec<u8>) -> (h: EvaluatedHand)
        ensures
            h@ == (HandValue { rank, primary: primary_values@, kickers: kickers@ }),
    {
        EvaluatedHand { rank, primary_values, kickers }
    }

    /// Category first, then primary values, then kickers, each list
    /// lexicographically.
    #[must_use]
    pub fn compare(&self, other: &EvaluatedHand) -> (o: Ordering)
        ensures
            o == hand_cmp(self@, other@),
    {
        let a = self.rank.value();
        let b = other.rank.value();
        if a < b {
            return Ordering::Less;
        }
        if a > b {
            return Ordering::Greater;
        }
        let p = cmp_ranks(&self.primary_values, &other.primary_values);
        match p {
            Ordering::Equal => cmp_ranks(&self.kickers, &other.kickers),
            _ => p,
        }
    }
}

/// How many of the cards have rank `r`.
pub open spec fn rank_count(cards: Seq<Card>, r: int) -> nat
    decreases cards.len(),
{
    if cards.len() == 0 {
        0
    } else {
        rank_count(cards.drop_last(), r) + if cards.last().rank == r {
            1nat
        } else {
            0nat
        }
    }
}

/// How many of the cards have suit `s`.
pub open spec fn suit_count(cards: Seq<Card>, s: Suit) -> nat
    decreases cards.len(),
{
    if cards.len() == 0 {
        0
    } else {
        suit_count(cards.drop_last(), s) + if cards.last().suit == s {
            1nat
        } else {
            0nat
        }
    }
}

/// The cards of suit `s`, in their order.
pub open spec fn suited(cards: Seq<Card>, s: Suit) -> Seq<Card>
    decreases cards.len(),
{
    if cards.len() == 0 {
        Seq::empty()
    } else if cards.last().suit == s {
        suited(cards.drop_last(), s).push(cards.last())
    } else {
        suited(cards.drop_last(), s)
    }
}

/// A count of `c` qualifies as exactly `n` (when `exact`) or as at least `n`.
pub open spec fn count_fits(c: nat, n: nat, exact: bool) -> bool {
    if exact {
        c == n
    } else {
        c >= n
    }
}

/// The highest rank at most `v`, other than `skip`, whose count qualifies; 0 if none.
pub open spec fn best_rank(cards: Seq<Card>, v: int, n: nat, exact: bool, skip: int) -> int
    decreases v,
{
    if v < 2 {
        0
    } else if v != skip && count_fits(rank_count(cards, v), n, exact) {
        v
    } else {
        best_rank(cards, v - 1, n, exact, skip)
    }
}

/// The `k` highest ranks at most `v`, repeated as often as they occur,
/// leaving out `skip1` and `skip2`, highest first.
pub open spec fn top_ranks(cards: Seq<Card>, v: int, skip1: int, skip2: int, k: nat) -> Seq<u8>
    decreases v,
{
    if v < 2 || k == 0 {
        Seq::empty()
    } else {
        let c = rank_count(cards, v);
        let m: nat = if v == skip1 || v == skip2 {
            0
        } else if c < k {
            c
        } else {
            k
        };
        Seq::new(m, |i: int| v as u8) + top_ranks(cards, v - 1, skip1, skip2, (k - m) as nat)
    }
}

/// Some card of rank `r` is among the cards.
pub open spec fn holds_rank(cards: Seq<Card>, r: int) -> bool {
    rank_count(cards, r) > 0
}

/// The five ranks `top` down to `top - 4` are all held.
pub open spec fn run_from(cards: Seq<Card>, top: int) -> bool {
    &&& holds_rank(cards, top)
    &&& holds_rank(cards, top - 1)
    &&& holds_rank(cards, top - 2)
    &&& holds_rank(cards, top - 3)
    &&& holds_rank(cards, top - 4)
}

/// The top of the highest run of five consecutive ranks at most `v`; 0 if none.
pub open spec fn straight_top(cards: Seq<Card>, v: int) -> int
    decreases v,
{
    if v < 6 {
        0
    } else if run_from(cards, v) {
        v
    } else {
        straight_top(cards, v - 1)
    }
}

/// The ace plays low: A, 2, 3, 4, 5 are all held.
pub open spec fn has_wheel(cards: Seq<Card>) -> bool {
    &&& holds_rank(cards, 14)
    &&& holds_rank(cards, 2)
    &&& holds_rank(cards, 3)
    &&& holds_rank(cards, 4)
    &&& holds_rank(cards, 5)
}

/// The five ranks of a run with top `top`, highest first.
pub open spec fn run_values(top: int) -> Seq<u8> {
    seq![top as u8, (top - 1) as u8, (top - 2) as u8, (top - 3) as u8, (top - 4) as u8]
}

/// The ranks of the best straight among the cards: the top five of the
/// highest run, else the wheel as 5-high, else none.
pub open spec fn straight_values(cards: Seq<Card>) -> Option<Seq<u8>> {
    if straight_top(cards, 14) != 0 {
        Some(run_values(straight_top(cards, 14)))
    } else if has_wheel(cards) {
        Some(seq![5u8, 4u8, 3u8, 2u8, 1u8])
    } else {
        None
    }
}

/// The first suit, in spades, hearts, diamonds, clubs order, held five times or more.
pub open spec fn flush_suit(cards: Seq<Card>) -> Option<Suit> {
    if suit_count(cards, Suit::Spades) >= 5 {
        Some(Suit::Spades)
    } else if suit_count(cards, Suit::Hearts) >= 5 {
        Some(Suit::Hearts)
    } else if suit_count(cards, Suit::Diamonds) >= 5 {
        Some(Suit::Diamonds)
    } else if suit_count(cards, Suit::Clubs) >= 5 {
        Some(Suit::Clubs)
    } else {
        None
    }
}

/// Five ranks, each one above the next.
pub open spec fn consecutive_desc(s: Seq<u8>) -> bool {
    &&& s.len() == 5
    &&& s[0] == s[1] + 1
    &&& s[1] == s[2] + 1
    &&& s[2] == s[3] + 1
    &&& s[3] == s[4] + 1
}

/// The value of a flush: the five highest ranks of the suit, as a straight
/// flush when they run consecutively, as a royal flush when they run from the ace.
pub open spec fn flush_value(cards: Seq<Card>, s: Suit) -> HandValue {
    let top = top_ranks(suited(cards, s), 14, 0, 0, 5);
    if consecutive_desc(top) {
        if top[0] == 14 {
            HandValue { rank: HandRank::RoyalFlush, primary: seq![14u8], kickers: Seq::empty() }
        } else {
            HandValue { rank: HandRank::StraightFlush, primary: top, kickers: Seq::empty() }
        }
    } else {
        HandValue { rank: HandRank::Flush, primary: top, kickers: Seq::empty() }
    }
}

/// The best hand the cards make; the first category that applies, strongest
/// combinations first, wins.
pub open spec fn hand_value(cards: Seq<Card>) -> HandValue {
    let none = Seq::<u8>::empty();
    let four = best_rank(cards, 14, 4, true, 0);
    let set = best_rank(cards, 14, 3, false, 0);
    let set_pair = best_rank(cards, 14, 2, false, set);
    let trips = best_rank(cards, 14, 3, true, 0);
    let pair1 = best_rank(cards, 14, 2, true, 0);
    let pair2 = best_rank(cards, 14, 2, true, pair1);
    if cards.len() < 5 {
        HandValue { rank: HandRank::HighCard, primary: none, kickers: none }
    } else if four != 0 {
        HandValue {
            rank: HandRank::FourOfAKind,
            primary: seq![four as u8],
            kickers: top_ranks(cards, 14, four, 0, 1),
        }
    } else if set != 0 && set_pair != 0 {
        HandValue {
            rank: HandRank::FullHouse,
            primary: seq![set as u8, set_pair as u8],
            kickers: none,
        }
    } else if flush_suit(cards) is Some {
        flush_value(cards, flush_suit(cards)->0)
    } else if straight_values(cards) is Some {
        HandValue { rank: HandRank::Straight, primary: straight_values(cards)->0, kickers: none }
    } else if trips != 0 {
        HandValue {
            rank: HandRank::ThreeOfAKind,
            primary: seq![trips as u8],
            kickers: top_ranks(cards, 14, trips, 0, 2),
        }
    } else if pair1 != 0 && pair2 != 0 {
        HandValue {
            rank: HandRank::TwoPair,
            primary: seq![pair1 as u8, pair2 as u8],
            kickers: top_ranks(cards, 14, pair1, pair2, 1),
        }
    } else if pair1 != 0 {
        HandValue {
            rank: HandRank::Pair,
            primary: seq![pair1 as u8],
            kickers: top_ranks(cards, 14, pair1, 0, 3),
        }
    } else {
        HandValue { rank: HandRank::HighCard, primary: none, kickers: top_ranks(cards, 14, 0, 0, 5) }
    }
}

/// `counts[r]` is the number of cards of rank `r`, for every rank up to the ace.
pub open spec fn counts_of(counts: Seq<usize>, cards: Seq<Card>) -> bool {
    &&& counts.len() == 15
    &&& forall|r: int| 0 <= r < 15 ==> #[trigger] counts[r] == rank_count(cards, r)
}

/// Every card has a real rank.
pub open spec fn all_valid(cards: Seq<Card>) -> bool {
    forall|i: int| 0 <= i < cards.len() ==> (#[trigger] cards[i]).valid()
}

proof fn lemma_rank_count_bound(cards: Seq<Card>, r: int)
    ensures
        rank_count(cards, r) <= cards.len(),
    decreases cards.len(),
{
    if cards.len() > 0 {
        lemma_rank_count_bound(cards.drop_last(), r);
    }
}

fn count_ranks(cards: &Vec<Card>) -> (counts: Vec<usize>)
    requires
        all_valid(cards@),
    ensures
        counts_of(counts@, cards@),
{
    let mut counts: Vec<usize> = vec![0usize; 15];
    let n = cards.len();
    let mut i: usize = 0;
    while i < n
        invariant
            n == cards@.len(),
            i <= n,
            all_valid(cards@),
            counts_of(counts@, cards@.take(i as int)),
        decreases n - i,
    {
        let r = cards[i].rank as usize;
        assert(cards@.take(i + 1).drop_last() =~= cards@.take(i as int));
        assert(cards@.take(i + 1).last() == cards@[i as int]);
        proof {
            lemma_rank_count_bound(cards@.take(i as int), r as int);
        }
        let c = counts[r];
        counts.set(r, c + 1);
        i = i + 1;
    }
    assert(cards@.take(n as int) =~= cards@);
    counts
}

fn count_suit(cards: &Vec<Card>, s: Suit) -> (c: usize)
    ensures
        c == suit_count(cards@, s),
{
    let n = cards.len();
    let mut c: usize = 0;
    let mut i: usize = 0;
    while i < n
        invariant
            n == cards@.len(),
            i <= n,
            c == suit_count(cards@.take(i as int), s),
            c <= i,
        decreases n - i,
    {
        assert(cards@.take(i + 1).drop_last() =~= cards@.take(i as int));
        assert(cards@.take(i + 1).last() == cards@[i as int]);
        if cards[i].suit == s {
            c = c + 1;
        }
        i = i + 1;
    }
    assert(cards@.take(n as int) =~= cards@);
    c
}

fn cards_of_suit(cards: &Vec<Card>, s: Suit) -> (r: Vec<Card>)
    requires
        all_valid(cards@),
    ensures
        r@ == suited(cards@, s),
        all_valid(r@),
{
    let n = cards.len();
    let mut r: Vec<Card> = Vec::new();
    let mut i: usize = 0;
    while i < n
        invariant
            n == cards@.len(),
            i <= n,
            all_valid(cards@),
            r@ == suited(cards@.take(i as int), s),
            all_valid(r@),
        decreases n - i,
    {
        assert(cards@.take(i + 1).drop_last() =~= cards@.take(i as int));
        assert(cards@.take(i + 1).last() == cards@[i as int]);
        if cards[i].suit == s {
            r.push(cards[i]);
        }
        i = i + 1;
    }
    assert(cards@.take(n as int) =~= cards@);
    r
}

fn find_best_rank(counts: &Vec<usize>, Ghost(cards): Ghost<Seq<Card>>, n: usize, exact: bool, skip: u8) -> (r: u8)
    requires
        counts_of(counts@, cards),
    ensures
        r == best_rank(cards, 14, n as nat, exact, skip as int),
{
    let mut v: u8 = 14;
    while v >= 2
        invariant
            1 <= v <= 14,
            counts_of(counts@, cards),
            best_rank(cards, 14, n as nat, exact, skip as int) == best_rank(cards, v as int, n as nat, exact, skip as int),
        decreases v,
    {
        let c = counts[v as usize];
        let fits = if exact { c == n } else { c >= n };
        if v != skip && fits {
            return v;
        }
        v = v - 1;
    }
    0
}

fn take_top_ranks(counts: &Vec<usize>, Ghost(cards): Ghost<Seq<Card>>, skip1: u8, skip2: u8, k: usize) -> (r: Vec<u8>)
    requires
        counts_of(counts@, cards),
    ensures
        r@ == top_ranks(cards, 14, skip1 as int, skip2 as int, k as nat),
{
    let mut out: Vec<u8> = Vec::new();
    let mut v: u8 = 14;
    while v >= 2 && out.len() < k
        invariant
            1 <= v <= 14,
            out@.len() <= k,
            counts_of(counts@, cards),
            out@ + top_ranks(cards, v as int, skip1 as int, skip2 as int, (k - out@.len()) as nat)
                == top_ranks(cards, 14, skip1 as int, skip2 as int, k as nat),
        decreases v,
    {
        let need = k - out.len();
        let c = counts[v as usize];
        let m: usize = if v == skip1 || v == skip2 {
            0
        } else if c < need {
            c
        } else {
            need
        };
        let ghost out0 = out@;
        let mut j: usize = 0;
        while j < m
            invariant
                j <= m,
                m <= need,
                need == k - out0.len(),
                out@ == out0 + Seq::new(j as nat, |i: int| v as u8),
            decreases m - j,
        {
            out.push(v);
            assert(out@ =~= out0 + Seq::new((j + 1) as nat, |i: int| v as u8));
            j = j + 1;
        }
        proof {
            let rest = top_ranks(cards, v - 1, skip1 as int, skip2 as int, (need - m) as nat);
            assert(top_ranks(cards, v as int, skip1 as int, skip2 as int, need as nat)
                == Seq::new(m as nat, |i: int| v as u8) + rest);
            assert(out0 + (Seq::new(m as nat, |i: int| v as u8) + rest) =~= out@ + rest);
        }
        v = v - 1;
    }
    proof {
        let rest = top_ranks(cards, v as int, skip1 as int, skip2 as int, (k - out@.len()) as nat);
        assert(rest =~= Seq::<u8>::empty());
        assert(out@ + rest =~= out@);
    }
    out
}

fn top_of_run(counts: &Vec<usize>, Ghost(cards): Ghost<Seq<Card>>, top: usize) -> (b: bool)
    requires
        counts_of(counts@, cards),
        5 <= top <= 14,
    ensures
        b == run_from(cards, top as int),
{
    counts[top] > 0 && counts[top - 1] > 0 && counts[top - 2] > 0 && counts[top - 3] > 0 && counts[top
        - 4] > 0
}

/// Pure functions that rank poker hands.
pub struct PokerHandEvaluator;

impl PokerHandEvaluator {
    /// The best hand that the hole and community cards make together; fewer
    /// than five cards in all give a high card with no values.
    #[must_use]
    pub fn evaluate(hole_cards: &[Card], community_cards: &[Card]) -> (h: EvaluatedHand)
        requires
            hole_cards@.len() <= 2,
            community_cards@.len() <= 5,
            all_valid(hole_cards@ + community_cards@),
        ensures
            h@ == hand_value(hole_cards@ + community_cards@),
    {
        let ghost all_view = hole_cards@ + community_cards@;
        let mut all: Vec<Card> = Vec::new();
        let mut i: usize = 0;
        while i < hole_cards.len()
            invariant
                i <= hole_cards@.len(),
                all@ == hole_cards@.take(i as int),
            decreases hole_cards@.len() - i,
        {
            all.push(hole_cards[i]);
            assert(all@ =~= hole_cards@.take(i + 1));
            i = i + 1;
        }
        let mut i: usize = 0;
        while i < community_cards.len()
            invariant
                i <= community_cards@.len(),
                hole_cards@.len() <= 2,
                all@ == hole_cards@ + community_cards@.take(i as int),
            decreases community_cards@.len() - i,
        {
            all.push(community_cards[i]);
            assert(all@ =~= hole_cards@ + community_cards@.take(i + 1));
            i = i + 1;
        }
        assert(all@ =~= all_view);
        let ghost cards = all@;
        let empty: Vec<u8> = Vec::new();
        if all.len() < 5 {
            return EvaluatedHand::new(HandRank::HighCard, empty, Vec::new());
        }
        let counts = count_ranks(&all);

        let four = find_best_rank(&counts, Ghost(cards), 4, true, 0);
        if four != 0 {
            let kickers = take_top_ranks(&counts, Ghost(cards), four, 0, 1);
            let primary = vec![four];
            assert(primary@ =~= seq![four]);
            return EvaluatedHand::new(HandRank::FourOfAKind, primary, kickers);
        }

        let set = find_best_rank(&counts, Ghost(cards), 3, false, 0);
        let set_pair = find_best_rank(&counts, Ghost(cards), 2, false, set);
        if set != 0 && set_pair != 0 {
            let primary = vec![set, set_pair];
            assert(primary@ =~= seq![set, set_pair]);
            return EvaluatedHand::new(HandRank::FullHouse, primary, empty);
        }

        let flush = if count_suit(&all, Suit::Spades) >= 5 {
            Some(Suit::Spades)
        } else if count_suit(&all, Suit::Hearts) >= 5 {
            Some(Suit::Hearts)
        } else if count_suit(&all, Suit::Diamonds) >= 5 {
            Some(Suit::Diamonds)
        } else if count_suit(&all, Suit::Clubs) >= 5 {
            Some(Suit::Clubs)
        } else {
            None
        };
        if let Some(suit) = flush {
            let suited_cards = cards_of_suit(&all, suit);
            let suited_counts = count_ranks(&suited_cards);
            let top = take_top_ranks(&suited_counts, Ghost(suited_cards@), 0, 0, 5);
            if top.len() == 5 && top[0] as u16 == top[1] as u16 + 1 && top[1] as u16 == top[2] as u16
                + 1 && top[2] as u16 == top[3] as u16 + 1 && top[3] as u16 == top[4] as u16 + 1 {
                if top[0] == 14 {
                    let primary = vec![14u8];
                    assert(primary@ =~= seq![14u8]);
                    return EvaluatedHand::new(HandRank::RoyalFlush, primary, empty);
                }
                return EvaluatedHand::new(HandRank::StraightFlush, top, empty);
            }
            return EvaluatedHand::new(HandRank::Flush, top, empty);
        }

        if let Some(run) = Self::find_straight(&counts, Ghost(cards)) {
            return EvaluatedHand::new(HandRank::Straight, run, empty);
        }

        let trips = find_best_rank(&counts, Ghost(cards), 3, true, 0);
        if trips != 0 {
            let kickers = take_top_ranks(&counts, Ghost(cards), trips, 0, 2);
            let primary = vec![trips];
            assert(primary@ =~= seq![trips]);
            return EvaluatedHand::new(HandRank::ThreeOfAKind, primary, kickers);
        }

        let pair1 = find_best_rank(&counts, Ghost(cards), 2, true, 0);
        let pair2 = find_best_rank(&counts, Ghost(cards), 2, true, pair1);
        if pair1 != 0 && pair2 != 0 {
            let kickers = take_top_ranks(&counts, Ghost(cards), pair1, pair2, 1);
            let primary = vec![pair1, pair2];
            assert(primary@ =~= seq![pair1, pair2]);
            return EvaluatedHand::new(HandRank::TwoPair, primary, kickers);
        }
        if pair1 != 0 {
            let kickers = take_top_ranks(&counts, Ghost(cards), pair1, 0, 3);
            let primary = vec![pair1];
            assert(primary@ =~= seq![pair1]);
            return EvaluatedHand::new(HandRank::Pair, primary, kickers);
        }

        let kickers = take_top_ranks(&counts, Ghost(cards), 0, 0, 5);
        EvaluatedHand::new(HandRank::HighCard, empty, kickers)
    }

    /// The best straight among the counted ranks: the top five of the highest
    /// run of five, else the wheel A-2-3-4-5 as `[5, 4, 3, 2, 1]`.
    fn find_straight(counts: &Vec<usize>, Ghost(cards): Ghost<Seq<Card>>) -> (r: Option<Vec<u8>>)
        requires
            counts_of(counts@, cards),
        ensures
            r is Some == straight_values(cards) is Some,
            r is Some ==> r->0@ == straight_values(cards)->0,
    {
        let mut top: u8 = 14;
        while top >= 6
            invariant
                5 <= top <= 14,
                counts_of(counts@, cards),
                straight_top(cards, 14) == straight_top(cards, top as int),
            decreases top,
        {
            if top_of_run(counts, Ghost(cards), top as usize) {
                let run = vec![top, top - 1, top - 2, top - 3, top - 4];
                assert(run@ =~= run_values(top as int));
                return Some(run);
            }
            top = top - 1;
        }
        if counts[14] > 0 && counts[2] > 0 && counts[3] > 0 && counts[4] > 0 && counts[5] > 0 {
            let wheel = vec![5u8, 4, 3, 2, 1];
            assert(wheel@ =~= seq![5u8, 4u8, 3u8, 2u8, 1u8]);
            return Some(wheel);
        }
        None
    }
}

/// How many of the cards satisfy `p`.
pub open spec fn count_where(cards: Seq<Card>, p: spec_fn(Card) -> bool) -> nat
    decreases cards.len(),
{
    if cards.len() == 0 {
        0
    } else {
        count_where(cards.drop_last(), p) + if p(cards.last()) {
            1nat
        } else {
            0nat
        }
    }
}

proof fn lemma_count_remove(s: Seq<Card>, j: int, p: spec_fn(Card) -> bool)
    requires
        0 <= j < s.len(),
    ensures
        count_where(s, p) == count_where(s.remove(j), p) + if p(s[j]) {
            1nat
        } else {
            0nat
        },
    decreases s.len(),
{
    if j == s.len() - 1 {
        assert(s.remove(j) =~= s.drop_last());
    } else {
        lemma_count_remove(s.drop_last(), j, p);
        assert(s.remove(j).drop_last() =~= s.drop_last().remove(j));
        assert(s.remove(j).last() == s.last());
    }
}

proof fn lemma_count_reorder(a: Seq<Card>, b: Seq<Card>, p: spec_fn(Card) -> bool)
    requires
        a.to_multiset() == b.to_multiset(),
    ensures
        count_where(a, p) == count_where(b, p),
    decreases a.len(),
{
    broadcast use vstd::seq_lib::group_to_multiset_ensures;

    a.to_multiset_ensures();
    b.to_multiset_ensures();
    if a.len() == 0 {
        assert(b.len() == 0);
    } else {
        let x = a.last();
        assert(a =~= a.drop_last().push(x));
        assert(a.contains(x));
        assert(b.to_multiset().count(x) > 0);
        assert(b.contains(x));
        let j = choose|j: int| 0 <= j < b.len() && b[j] == x;
        lemma_count_remove(b, j, p);
        assert(a.drop_last().to_multiset() =~= b.remove(j).to_multiset());
        lemma_count_reorder(a.drop_last(), b.remove(j), p);
    }
}

proof fn lemma_rank_count_where(cards: Seq<Card>, r: int)
    ensures
        rank_count(cards, r) == count_where(cards, |c: Card| c.rank == r),
    decreases cards.len(),
{
    if cards.len() > 0 {
        lemma_rank_count_where(cards.drop_last(), r);
    }
}

proof fn lemma_suit_count_where(cards: Seq<Card>, s: Suit)
    ensures
        suit_count(cards, s) == count_where(cards, |c: Card| c.suit == s),
    decreases cards.len(),
{
    if cards.len() > 0 {
        lemma_suit_count_where(cards.drop_last(), s);
    }
}

proof fn lemma_suited_count_where(cards: Seq<Card>, s: Suit, r: int)
    ensures
        rank_count(suited(cards, s), r) == count_where(cards, |c: Card| c.suit == s && c.rank == r),
    decreases cards.len(),
{
    if cards.len() > 0 {
        lemma_suited_count_where(cards.drop_last(), s, r);
        let t = suited(cards.drop_last(), s);
        if cards.last().suit == s {
            assert(t.push(cards.last()).drop_last() =~= t);
        }
    }
}

/// The cards hold every rank equally often.
pub open spec fn same_rank_counts(a: Seq<Card>, b: Seq<Card>) -> bool {
    forall|r: int| #[trigger] rank_count(a, r) == rank_count(b, r)
}

proof fn lemma_best_rank_same(a: Seq<Card>, b: Seq<Card>, v: int, n: nat, exact: bool, skip: int)
    requires
        same_rank_counts(a, b),
    ensures
        best_rank(a, v, n, exact, skip) == best_rank(b, v, n, exact, skip),
    decreases v,
{
    if v >= 2 {
        assert(rank_count(a, v) == rank_count(b, v));
        lemma_best_rank_same(a, b, v - 1, n, exact, skip);
    }
}

proof fn lemma_top_ranks_same(a: Seq<Card>, b: Seq<Card>, v: int, s1: int, s2: int, k: nat)
    requires
        same_rank_counts(a, b),
    ensures
        top_ranks(a, v, s1, s2, k) == top_ranks(b, v, s1, s2, k),
    decreases v,
{
    if v >= 2 && k > 0 {
        assert(rank_count(a, v) == rank_count(b, v));
        let c = rank_count(a, v);
        let m: nat = if v == s1 || v == s2 {
            0
        } else if c < k {
            c
        } else {
            k
        };
        lemma_top_ranks_same(a, b, v - 1, s1, s2, (k - m) as nat);
    }
}

proof fn lemma_straight_top_same(a: Seq<Card>, b: Seq<Card>, v: int)
    requires
        same_rank_counts(a, b),
    ensures
        straight_top(a, v) == straight_top(b, v),
    decreases v,
{
    if v >= 6 {
        assert(rank_count(a, v) == rank_count(b, v));
        assert(rank_count(a, v - 1) == rank_count(b, v - 1));
        assert(rank_count(a, v - 2) == rank_count(b, v - 2));
        assert(rank_count(a, v - 3) == rank_count(b, v - 3));
        assert(rank_count(a, v - 4) == rank_count(b, v - 4));
        lemma_straight_top_same(a, b, v - 1);
    }
}

/// The evaluation does not depend on the order of the cards: two lists that
/// hold the same cards, as many times each, make the same hand.
pub proof fn lemma_hand_value_order_free(a: Seq<Card>, b: Seq<Card>)
    requires
        a.to_multiset() == b.to_multiset(),
    ensures
        hand_value(a) == hand_value(b),
{
    broadcast use vstd::seq_lib::group_to_multiset_ensures;

    a.to_multiset_ensures();
    b.to_multiset_ensures();
    assert(a.len() == b.len());
    assert forall|r: int| #[trigger] rank_count(a, r) == rank_count(b, r) by {
        lemma_rank_count_where(a, r);
        lemma_rank_count_where(b, r);
        lemma_count_reorder(a, b, |c: Card| c.rank == r);
    }
    assert forall|s: Suit| #[trigger] suit_count(a, s) == suit_count(b, s) by {
        lemma_suit_count_where(a, s);
        lemma_suit_count_where(b, s);
        lemma_count_reorder(a, b, |c: Card| c.suit == s);
    }
    assert forall|s: Suit| same_rank_counts(#[trigger] suited(a, s), suited(b, s)) by {
        assert forall|r: int| #[trigger] rank_count(suited(a, s), r) == rank_count(suited(b, s), r) by {
            lemma_suited_count_where(a, s, r);
            lemma_suited_count_where(b, s, r);
            lemma_count_reorder(a, b, |c: Card| c.suit == s && c.rank == r);
        }
    }
    let four = best_rank(a, 14, 4, true, 0);
    let set = best_rank(a, 14, 3, false, 0);
    let trips = best_rank(a, 14, 3, true, 0);
    let pair1 = best_rank(a, 14, 2, true, 0);
    lemma_best_rank_same(a, b, 14, 4, true, 0);
    lemma_best_rank_same(a, b, 14, 3, false, 0);
    lemma_best_rank_same(a, b, 14, 2, false, set);
    lemma_best_rank_same(a, b, 14, 3, true, 0);
    lemma_best_rank_same(a, b, 14, 2, true, 0);
    lemma_best_rank_same(a, b, 14, 2, true, pair1);
    lemma_top_ranks_same(a, b, 14, four, 0, 1);
    lemma_top_ranks_same(a, b, 14, trips, 0, 2);
    lemma_top_ranks_same(a, b, 14, pair1, best_rank(a, 14, 2, true, pair1), 1);
    lemma_top_ranks_same(a, b, 14, pair1, 0, 3);
    lemma_top_ranks_same(a, b, 14, 0, 0, 5);
    lemma_straight_top_same(a, b, 14);
    if flush_suit(a) is Some {
        let fs = flush_suit(a)->0;
        lemma_top_ranks_same(suited(a, fs), suited(b, fs), 14, 0, 0, 5);
    }
    assert(has_wheel(a) == has_wheel(b)) by {
        assert(rank_count(a, 14) == rank_count(b, 14));
        assert(rank_count(a, 2) == rank_count(b, 2));
        assert(rank_count(a, 3) == rank_count(b, 3));
        assert(rank_count(a, 4) == rank_count(b, 4));
        assert(rank_count(a, 5) == rank_count(b, 5));
    }
}

} // verus!
