//! An ordered pile of distinct cards: built in canonical order, shuffled,
//! dealt from the top and burned from the bottom.

use rand::Rng;
use vstd::prelude::*;

use crate::card::{Card, Suit};

verus! {

/// The suits in the order a fresh deck lists them.
pub open spec fn suit_order() -> Seq<Suit> {
    seq![Suit::Spades, Suit::Hearts, Suit::Diamonds, Suit::Clubs]
}

/// The thirteen cards of one suit, rank 2 up to the ace.
pub open spec fn suit_run(s: Suit) -> Seq<Card> {
    Seq::new(13, |i: int| Card { rank: (i + 2) as u8, suit: s })
}

/// The runs of the first `n` suits of `suit_order`, one after another.
pub open spec fn runs_of_suits(n: nat) -> Seq<Card>
    decreases n,
{
    if n == 0 {
        Seq::empty()
    } else {
        runs_of_suits((n - 1) as nat) + suit_run(suit_order()[n - 1])
    }
}

/// A fresh deck: every suit's run, spades first and clubs last.
pub open spec fn full_deck() -> Seq<Card> {
    runs_of_suits(4)
}

/// Every card is a real card and none occurs twice.
pub open spec fn distinct_valid(cards: Seq<Card>) -> bool {
    &&& forall|i: int| 0 <= i < cards.len() ==> (#[trigger] cards[i]).valid()
    &&& cards.no_duplicates()
}

/// An ordered pile of cards; the front is the top, from which cards are dealt.
#[derive(Clone)]
pub struct Deck {
    cards: Vec<Card>,
}

impl View for Deck {
    type V = Seq<Card>;

    closed spec fn view(&self) -> Seq<Card> {
        self.cards@
    }
}

/// Relies on rand::thread_rng and Rng::gen_range: a draw from the inclusive
/// range `0..=upper`, which is never empty, lies within it.
#[verifier::external_body]
fn random_index_upto(upper: usize) -> (r: usize)
    ensures
        r <= upper,
{
    rand::thread_rng().gen_range(0..=upper)
}

impl Default for Deck {
    fn default() -> (d: Deck)
        ensures
            d@ == full_deck(),
            d.wf(),
    {
        Deck::new()
    }
}

impl Deck {
    /// The deck holds real cards, none twice.
    pub open spec fn wf(&self) -> bool {
        distinct_valid(self@)
    }

    /// All 52 cards in canonical order.
    #[must_use]
    pub fn new() -> (d: Deck)
        ensures
            d@ == full_deck(),
            d.wf(),
    {
        let suits: [Suit; 4] = [Suit::Spades, Suit::Hearts, Suit::Diamonds, Suit::Clubs];
        let mut cards: Vec<Card> = Vec::with_capacity(52);
        let mut si: usize = 0;
        while si < 4
            invariant
                si <= 4,
                cards@ == runs_of_suits(si as nat),
                suits@ == suit_order(),
            decreases 4 - si,
        {
            let suit = suits[si];
            let mut rank: u8 = 2;
            while rank <= 14
                invariant
                    2 <= rank <= 15,
                    si < 4,
                    suit == suit_order()[si as int],
                    cards@ == runs_of_suits(si as nat) + suit_run(suit).take(rank - 2),
                decreases 15 - rank,
            {
                proof {
                    assert(suit_run(suit).take(rank - 1) =~= suit_run(suit).take(rank - 2).push(
                        Card { rank, suit },
                    ));
                }
                cards.push(Card::new(rank, suit));
                rank = rank + 1;
            }
            proof {
                assert(suit_run(suit).take(13) =~= suit_run(suit));
            }
            si = si + 1;
        }
        proof {
            lemma_full_deck();
        }
        Deck { cards }
    }

    /// The deck that holds `cards` in the given order, if they are real cards
    /// and none occurs twice.
    #[must_use]
    pub fn from_cards(cards: Vec<Card>) -> (r: Option<Deck>)
        ensures
            r is Some <==> distinct_valid(cards@),
            r is Some ==> r->0@ == cards@ && r->0.wf(),
    {
        let n = cards.len();
        let mut i: usize = 0;
        while i < n
            invariant
                n == cards@.len(),
                i <= n,
                forall|a: int| 0 <= a < i ==> (#[trigger] cards@[a]).valid(),
                forall|a: int, b: int| 0 <= a < b < n && a < i ==> cards@[a] != cards@[b],
            decreases n - i,
        {
            let c = cards[i];
            if c.rank < 2 || c.rank > 14 {
                return None;
            }
            let mut j: usize = i + 1;
            while j < n
                invariant
                    n == cards@.len(),
                    i < j <= n,
                    c == cards@[i as int],
                    forall|b: int| i < b < j ==> cards@[i as int] != #[trigger] cards@[b],
                decreases n - j,
            {
                if cards[j] == c {
                    return None;
                }
                j = j + 1;
            }
            i = i + 1;
        }
        Some(Deck { cards })
    }

    /// Puts the cards in the order that the given draws pick (Fisher–Yates):
    /// for `k` from the bottom position down to 1, the card at `k` changes
    /// places with the card at `draws[k]`, which is at most `k`.
    pub fn shuffle_with(&mut self, draws: &Vec<usize>)
        requires
            draws_fit(draws@, old(self)@.len()),
        ensures
            final(self)@ == fisher_yates(old(self)@, draws@),
            final(self)@.to_multiset() == old(self)@.to_multiset(),
            final(self)@.len() == old(self)@.len(),
            old(self).wf() ==> final(self).wf(),
    {
        let mut i: usize = self.cards.len();
        while i > 1
            invariant
                i <= self.cards@.len(),
                self.cards@.len() == old(self)@.len(),
                draws_fit(draws@, old(self)@.len()),
                self.cards@.to_multiset() == old(self)@.to_multiset(),
                fisher_yates(old(self)@, draws@) == fisher_yates_from(self.cards@, draws@, i as int),
            decreases i,
        {
            i = i - 1;
            let j = draws[i];
            let a = self.cards[i];
            let b = self.cards[j];
            proof {
                lemma_swap_multiset(self.cards@, i as int, j as int);
            }
            self.cards.set(i, b);
            self.cards.set(j, a);
        }
        proof {
            if old(self).wf() {
                lemma_reorder_keeps_distinct_valid(old(self)@, self@);
            }
        }
    }

    /// Puts the cards in a random order: draws `k`-th a position in `0..=k`
    /// for every position `k`, then shuffles with those draws. The cards
    /// themselves stay.
    pub fn shuffle(&mut self)
        ensures
            exists|d: Seq<usize>|
                draws_fit(d, old(self)@.len()) && final(self)@ == #[trigger] fisher_yates(
                    old(self)@,
                    d,
                ),
            final(self)@.to_multiset() == old(self)@.to_multiset(),
            final(self)@.len() == old(self)@.len(),
            old(self).wf() ==> final(self).wf(),
    {
        let n = self.cards.len();
        let mut draws: Vec<usize> = Vec::with_capacity(n);
        let mut k: usize = 0;
        while k < n
            invariant
                k <= n,
                draws@.len() == k,
                forall|m: int| 0 <= m < k ==> #[trigger] draws@[m] <= m,
            decreases n - k,
        {
            let j = random_index_upto(k);
            draws.push(j);
            k = k + 1;
        }
        self.shuffle_with(&draws);
    }

    /// Takes `count` cards off the top, in order; `None`, with the deck
    /// untouched, when fewer remain.
    pub fn deal(&mut self, count: usize) -> (r: Option<Vec<Card>>)
        ensures
            count > old(self)@.len() ==> r is None && final(self)@ == old(self)@,
            count <= old(self)@.len() ==> r is Some && r->0@ == old(self)@.take(count as int)
                && final(self)@ == old(self)@.skip(count as int),
            old(self).wf() ==> final(self).wf(),
    {
        proof {
            if old(self).wf() && count <= old(self)@.len() {
                lemma_sub_distinct_valid(old(self)@, count as int, old(self)@.len() as int);
            }
        }
        if count > self.cards.len() {
            return None;
        }
        let mut top = self.cards.split_off(count);
        std::mem::swap(&mut self.cards, &mut top);
        proof {
            assert(old(self)@.subrange(0, count as int) =~= old(self)@.take(count as int));
            assert(old(self)@.subrange(count as int, old(self)@.len() as int) =~= old(self)@.skip(
                count as int,
            ));
        }
        Some(top)
    }

    #[must_use]
    pub fn len(&self) -> (n: usize)
        ensures
            n == self@.len(),
    {
        self.cards.len()
    }

    #[must_use]
    pub fn is_empty(&self) -> (b: bool)
        ensures
            b == (self@.len() == 0),
    {
        self.cards.len() == 0
    }

    /// Discards the bottom card, unseen by the table.
    pub fn burn(&mut self) -> (r: Option<Card>)
        ensures
            old(self)@.len() == 0 ==> r is None && final(self)@ == old(self)@,
            old(self)@.len() > 0 ==> r == Some(old(self)@.last()) && final(self)@
                == old(self)@.drop_last(),
            old(self).wf() ==> final(self).wf(),
    {
        proof {
            if old(self).wf() && old(self)@.len() > 0 {
                lemma_sub_distinct_valid(old(self)@, 0, old(self)@.len() - 1);
            }
        }
        self.cards.pop()
    }

    /// The cards, top first.
    #[must_use]
    pub fn cards(&self) -> (s: &[Card])
        ensures
            s@ == self@,
    {
        self.cards.as_slice()
    }
}

proof fn lemma_runs_index(n: nat, i: int)
    requires
        n <= 4,
        0 <= i < 13 * n,
    ensures
        runs_of_suits(n).len() == 13 * n,
        runs_of_suits(n)[i] == (Card { rank: (i % 13 + 2) as u8, suit: suit_order()[i / 13] }),
    decreases n,
{
    let prev = runs_of_suits((n - 1) as nat);
    if i < 13 * (n - 1) {
        lemma_runs_index((n - 1) as nat, i);
    } else {
        if n > 1 {
            lemma_runs_index((n - 1) as nat, 0);
        }
        assert(prev.len() == 13 * (n - 1));
        assert(i / 13 == n - 1);
    }
}

/// A fresh deck holds 52 real cards, no two alike, and every real card is one of them.
pub proof fn lemma_full_deck()
    ensures
        full_deck().len() == 52,
        distinct_valid(full_deck()),
        forall|c: Card| c.valid() ==> full_deck().contains(c),
{
    let d = full_deck();
    lemma_runs_index(4, 0);
    assert forall|i: int| 0 <= i < d.len() implies (#[trigger] d[i]).valid() by {
        lemma_runs_index(4, i);
    }
    assert forall|i: int, j: int| 0 <= i < d.len() && 0 <= j < d.len() && i != j implies d[i]
        != d[j] by {
        lemma_runs_index(4, i);
        lemma_runs_index(4, j);
    }
    assert forall|c: Card| c.valid() implies d.contains(c) by {
        let k: int = match c.suit {
            Suit::Spades => 0,
            Suit::Hearts => 1,
            Suit::Diamonds => 2,
            Suit::Clubs => 3,
        };
        let i = 13 * k + c.rank - 2;
        lemma_runs_index(4, i);
        assert(d[i] == c);
    }
}

/// Reordering keeps a pile of distinct real cards distinct and real.
pub proof fn lemma_reorder_keeps_distinct_valid(a: Seq<Card>, b: Seq<Card>)
    requires
        distinct_valid(a),
        a.to_multiset() == b.to_multiset(),
    ensures
        distinct_valid(b),
        b.len() == a.len(),
{
    broadcast use vstd::seq_lib::group_to_multiset_ensures;

    a.to_multiset_ensures();
    b.to_multiset_ensures();
    a.lemma_multiset_has_no_duplicates();
    b.lemma_multiset_has_no_duplicates_conv();
    assert forall|i: int| 0 <= i < b.len() implies (#[trigger] b[i]).valid() by {
        assert(b.contains(b[i]));
        assert(b.to_multiset().count(b[i]) > 0);
        assert(a.contains(b[i]));
    }
}

/// Cards dealt one after another never repeat: the cards of a first deal
/// and of the deal after it have none in common, and none of either is left
/// in the deck.
pub proof fn lemma_deals_disjoint(deck: Seq<Card>, n: int, m: int)
    requires
        distinct_valid(deck),
        0 <= n,
        0 <= m,
        n + m <= deck.len(),
    ensures
        forall|c: Card| deck.take(n).contains(c) ==> !deck.skip(n).take(m).contains(c),
        forall|c: Card| deck.take(n).contains(c) ==> !deck.skip(n).skip(m).contains(c),
        forall|c: Card| deck.skip(n).take(m).contains(c) ==> !deck.skip(n).skip(m).contains(c),
{
    assert forall|c: Card| deck.take(n).contains(c) implies !deck.skip(n).take(m).contains(c) && !deck.skip(n).skip(m).contains(c) by {
        let i = choose|i: int| 0 <= i < n && deck.take(n)[i] == c;
        if deck.skip(n).take(m).contains(c) {
            let j = choose|j: int| 0 <= j < m && deck.skip(n).take(m)[j] == c;
            assert(deck[n + j] == deck[i]);
        }
        if deck.skip(n).skip(m).contains(c) {
            let j = choose|j: int| 0 <= j < deck.len() - n - m && deck.skip(n).skip(m)[j] == c;
            assert(deck[n + m + j] == deck[i]);
        }
    }
    assert forall|c: Card| deck.skip(n).take(m).contains(c) implies !deck.skip(n).skip(m).contains(c) by {
        let i = choose|i: int| 0 <= i < m && deck.skip(n).take(m)[i] == c;
        if deck.skip(n).skip(m).contains(c) {
            let j = choose|j: int| 0 <= j < deck.len() - n - m && deck.skip(n).skip(m)[j] == c;
            assert(deck[n + m + j] == deck[n + i]);
        }
    }
}

/// A stretch of a pile of distinct real cards is itself one.
pub proof fn lemma_sub_distinct_valid(s: Seq<Card>, lo: int, hi: int)
    requires
        distinct_valid(s),
        0 <= lo <= hi <= s.len(),
    ensures
        distinct_valid(s.subrange(lo, hi)),
        lo == 0 ==> distinct_valid(s.take(hi)),
        hi == s.len() ==> distinct_valid(s.skip(lo)),
        lo == 0 && hi == s.len() - 1 ==> distinct_valid(s.drop_last()),
{
    let t = s.subrange(lo, hi);
    assert forall|i: int, j: int| 0 <= i < t.len() && 0 <= j < t.len() && i != j implies t[i]
        != t[j] by {
        assert(t[i] == s[lo + i] && t[j] == s[lo + j]);
    }
    assert forall|i: int| 0 <= i < t.len() implies (#[trigger] t[i]).valid() by {
        assert(t[i] == s[lo + i]);
    }
    if lo == 0 {
        assert(s.take(hi) =~= t);
    }
    if hi == s.len() {
        assert(s.skip(lo) =~= t);
    }
    if lo == 0 && hi == s.len() - 1 {
        assert(s.drop_last() =~= t);
    }
}

/// `s` with the elements at `i` and `j` exchanged.
pub open spec fn swap_at(s: Seq<Card>, i: int, j: int) -> Seq<Card> {
    s.update(i, s[j]).update(j, s[i])
}

/// Each draw `draws[k]` is a position at most `k`, one per position.
pub open spec fn draws_fit(draws: Seq<usize>, n: nat) -> bool {
    &&& draws.len() == n
    &&& forall|k: int| 0 <= k < n ==> #[trigger] draws[k] <= k
}

/// The first `n` steps of Fisher–Yates, counted from the top: for `k` from
/// `n - 1` down to 1, the element at `k` changes places with the one at `draws[k]`.
pub open spec fn fisher_yates_from(s: Seq<Card>, draws: Seq<usize>, n: int) -> Seq<Card>
    decreases n,
{
    if n <= 1 {
        s
    } else {
        fisher_yates_from(swap_at(s, n - 1, draws[n - 1] as int), draws, n - 1)
    }
}

/// The order Fisher–Yates gives `s` under the given draws.
pub open spec fn fisher_yates(s: Seq<Card>, draws: Seq<usize>) -> Seq<Card> {
    fisher_yates_from(s, draws, s.len() as int)
}

proof fn lemma_swap_no_duplicates(s: Seq<Card>, i: int, j: int)
    requires
        s.no_duplicates(),
        0 <= i < s.len(),
        0 <= j < s.len(),
    ensures
        swap_at(s, i, j).no_duplicates(),
{
    let t = swap_at(s, i, j);
    assert forall|a: int, b: int| 0 <= a < t.len() && 0 <= b < t.len() && a != b implies t[a]
        != t[b] by {
        let sa = if a == j { i } else if a == i { j } else { a };
        let sb = if b == j { i } else if b == i { j } else { b };
        assert(t[a] == s[sa] && t[b] == s[sb]);
    }
}

/// Fisher–Yates steps below `n` leave positions `n` and up untouched.
proof fn lemma_fisher_yates_tail(t: Seq<Card>, d: Seq<usize>, n: int)
    requires
        0 <= n <= t.len(),
        n <= d.len(),
        forall|k: int| 0 <= k < n ==> #[trigger] d[k] <= k,
    ensures
        fisher_yates_from(t, d, n).len() == t.len(),
        forall|m: int| n <= m < t.len() ==> #[trigger] fisher_yates_from(t, d, n)[m] == t[m],
    decreases n,
{
    if n > 1 {
        let u = swap_at(t, n - 1, d[n - 1] as int);
        lemma_fisher_yates_tail(u, d, n - 1);
    }
}

proof fn lemma_fisher_yates_from_injective(t: Seq<Card>, d1: Seq<usize>, d2: Seq<usize>, n: int)
    requires
        t.no_duplicates(),
        0 <= n <= t.len(),
        n <= d1.len(),
        n <= d2.len(),
        forall|k: int| 0 <= k < n ==> #[trigger] d1[k] <= k,
        forall|k: int| 0 <= k < n ==> #[trigger] d2[k] <= k,
        fisher_yates_from(t, d1, n) == fisher_yates_from(t, d2, n),
    ensures
        forall|k: int| 0 <= k < n ==> #[trigger] d1[k] == d2[k],
    decreases n,
{
    if n == 1 {
        assert(d1[0] <= 0 && d2[0] <= 0);
    } else if n > 1 {
        let u1 = swap_at(t, n - 1, d1[n - 1] as int);
        let u2 = swap_at(t, n - 1, d2[n - 1] as int);
        lemma_fisher_yates_tail(u1, d1, n - 1);
        lemma_fisher_yates_tail(u2, d2, n - 1);
        assert(fisher_yates_from(u1, d1, n - 1)[n - 1] == t[d1[n - 1] as int]);
        assert(fisher_yates_from(u2, d2, n - 1)[n - 1] == t[d2[n - 1] as int]);
        assert(d1[n - 1] == d2[n - 1]);
        lemma_swap_no_duplicates(t, n - 1, d1[n - 1] as int);
        lemma_fisher_yates_from_injective(u1, d1, d2, n - 1);
    }
}

/// Different draws give different orders: on a deck of distinct cards, the
/// order Fisher–Yates produces determines the draws that produced it, so each
/// of the `n!` ways of drawing yields its own ordering.
pub proof fn lemma_fisher_yates_injective(s: Seq<Card>, d1: Seq<usize>, d2: Seq<usize>)
    requires
        s.no_duplicates(),
        draws_fit(d1, s.len()),
        draws_fit(d2, s.len()),
        fisher_yates(s, d1) == fisher_yates(s, d2),
    ensures
        d1 == d2,
{
    lemma_fisher_yates_from_injective(s, d1, d2, s.len() as int);
    assert(d1 =~= d2);
}

/// Writing `s[j]` at `i` and `s[i]` at `j` keeps the multiset of elements.
proof fn lemma_swap_multiset(s: Seq<Card>, i: int, j: int)
    requires
        0 <= i < s.len(),
        0 <= j < s.len(),
    ensures
        s.update(i, s[j]).update(j, s[i]).to_multiset() == s.to_multiset(),
{
    broadcast use vstd::seq_lib::group_to_multiset_ensures;
    broadcast use vstd::multiset::group_multiset_axioms;

    let t = s.update(i, s[j]);
    lemma_update_multiset(s, i, s[j]);
    lemma_update_multiset(t, j, s[i]);
    assert(t[j] == s[j]);
    assert(t.update(j, s[i]).to_multiset() =~= s.to_multiset());
}

/// Overwriting one element removes the old value from the multiset and adds the new one.
proof fn lemma_update_multiset(s: Seq<Card>, i: int, x: Card)
    requires
        0 <= i < s.len(),
    ensures
        s.update(i, x).to_multiset() == s.to_multiset().remove(s[i]).insert(x),
{
    broadcast use vstd::seq_lib::group_to_multiset_ensures;

    let r = s.remove(i);
    assert(s.update(i, x) =~= r.insert(i, x));
    vstd::seq_lib::to_multiset_insert(r, i, x);
    vstd::seq_lib::to_multiset_remove(s, i);
}

} // verus!
