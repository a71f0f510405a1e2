use rand::rngs::StdRng;
use rand::seq::SliceRandom;
use rand::SeedableRng;
use vstd::prelude::*;

use crate::card::{suit_at, suit_index, Card, Suit};

verus! {

/// The card at position `i` of a fresh deck: suits in enumeration order,
/// ranks ascending within each suit.
pub open spec fn standard_card(i: int) -> Card {
    Card { suit: suit_at(i / 13), rank: (i % 13 + 1) as i32 }
}

/// The 52 cards of a fresh, unshuffled deck, in order.
pub open spec fn standard_deck() -> Seq<Card> {
    Seq::new(52, |i: int| standard_card(i))
}

proof fn lemma_standard_card_at(s: int, k: int)
    requires
        0 <= s < 4,
        0 <= k < 13,
    ensures
        standard_card(s * 13 + k) == (Card { suit: suit_at(s), rank: (k + 1) as i32 }),
{
    assert((s * 13 + k) / 13 == s && (s * 13 + k) % 13 == k) by (nonlinear_arith)
        requires
            0 <= s < 4,
            0 <= k < 13,
    ;
}

/// A fresh deck holds 52 cards, every one well formed, no card twice, and
/// every well-formed card at least once: each of the 52 (suit, rank) pairs
/// exactly once.
pub proof fn lemma_standard_deck_complete()
    ensures
        standard_deck().len() == 52,
        standard_deck().no_duplicates(),
        forall|i: int| 0 <= i < 52 ==> (#[trigger] standard_deck()[i]).valid(),
        forall|c: Card| c.valid() <==> #[trigger] standard_deck().contains(c),
{
    let d = standard_deck();
    assert forall|i: int| 0 <= i < 52 implies (#[trigger] d[i]).valid() by {
        lemma_standard_card_at(i / 13, i % 13);
    }
    assert forall|i: int, j: int| 0 <= i < 52 && 0 <= j < 52 && i != j implies d[i] != d[j] by {
        lemma_standard_card_at(i / 13, i % 13);
        lemma_standard_card_at(j / 13, j % 13);
    }
    assert forall|c: Card| c.valid() implies #[trigger] d.contains(c) by {
        let s = suit_index(c.suit);
        let k = c.rank - 1;
        lemma_standard_card_at(s, k);
        assert(d[s * 13 + k] == c);
    }
}

/// Builds the 52-card deck in its fixed order: Club, Diamond, Heart, Spade,
/// each with ranks 1 to 13 ascending.
pub fn build_deck() -> (deck: Vec<Card>)
    ensures
        deck@ == standard_deck(),
{
    let suits = [Suit::Club, Suit::Diamond, Suit::Heart, Suit::Spade];
    let mut deck: Vec<Card> = Vec::with_capacity(52);
    let mut s: usize = 0;
    while s < 4
        invariant
            0 <= s <= 4,
            suits@ == seq![Suit::Club, Suit::Diamond, Suit::Heart, Suit::Spade],
            deck@ == standard_deck().take(s * 13),
        decreases 4 - s,
    {
        let suit = suits[s];
        let mut rank: i32 = 1;
        while rank <= 13
            invariant
                0 <= s < 4,
                1 <= rank <= 14,
                suit == suit_at(s as int),
                deck@ == standard_deck().take(s * 13 + rank - 1),
            decreases 14 - rank,
        {
            proof {
                lemma_standard_card_at(s as int, rank - 1);
            }
            deck.push(Card::new(suit, rank));
            assert(deck@ =~= standard_deck().take(s * 13 + rank));
            rank = rank + 1;
        }
        s = s + 1;
    }
    assert(deck@ =~= standard_deck());
    deck
}

/// The order that rand's standard generator, seeded with `seed`, gives to
/// the cards `d` when it shuffles them.
pub uninterp spec fn seeded_shuffle(d: Seq<Card>, seed: u64) -> Seq<Card>;

/// Relies on rand's `StdRng::seed_from_u64` and `SliceRandom::shuffle` for
/// slices: the seed fixes the generator's output, so the order depends on
/// the cards and the seed alone, and the shuffle permutes the elements in
/// place by swapping pairs of them, so the same cards, in the same number,
/// come out.
#[verifier::external_body]
fn shuffle_seeded(deck: &mut Vec<Card>, seed: u64)
    ensures
        final(deck)@ == seeded_shuffle(old(deck)@, seed),
        final(deck)@.len() == old(deck)@.len(),
        final(deck)@.to_multiset() == old(deck)@.to_multiset(),
{
    deck.as_mut_slice().shuffle(&mut StdRng::seed_from_u64(seed))
}

/// Puts the deck in a random order drawn from a generator seeded with
/// `seed`: the same cards and seed always give the same order. No card is
/// lost or added.
pub fn shuffle_deck(deck: &mut Vec<Card>, seed: u64)
    ensures
        final(deck)@ == seeded_shuffle(old(deck)@, seed),
        final(deck)@.len() == old(deck)@.len(),
        final(deck)@.to_multiset() == old(deck)@.to_multiset(),
{
    shuffle_seeded(deck, seed);
}

/// The cards taken by popping `k` times from the end of `s`, in the order
/// they were taken.
pub open spec fn popped(s: Seq<Card>, k: int) -> Seq<Card> {
    Seq::new(k as nat, |i: int| s[s.len() - 1 - i])
}

/// How many cards a request for `n` gets from a deck of `len` cards: all of
/// them when the deck holds enough, otherwise what is left.
pub open spec fn drawn_count(len: int, n: int) -> int {
    if n <= len {
        n
    } else {
        len
    }
}

/// Takes up to `num_cards` cards from the end of the deck, last card first.
/// When the deck holds fewer, all of them are taken: the length of the
/// result says how many were drawn. The drawn cards are removed from the
/// deck, and a deck without repeated cards shares none with the hand.
pub fn draw_hand(deck: &mut Vec<Card>, num_cards: usize) -> (hand: Vec<Card>)
    ensures
        hand@.len() == drawn_count(old(deck)@.len() as int, num_cards as int),
        final(deck)@ == old(deck)@.take(old(deck)@.len() - hand@.len()),
        hand@ == popped(old(deck)@, hand@.len() as int),
        num_cards <= old(deck)@.len() ==> final(deck)@.len() == old(deck)@.len() - num_cards,
        old(deck)@.no_duplicates() ==> {
            &&& final(deck)@.no_duplicates()
            &&& hand@.no_duplicates()
            &&& forall|i: int, j: int|
                0 <= i < hand@.len() && 0 <= j < final(deck)@.len() ==> hand@[i]
                    != final(deck)@[j]
        },
{
    let ghost d0 = deck@;
    let mut hand: Vec<Card> = Vec::new();
    let mut i: usize = 0;
    while i < num_cards && deck.len() > 0
        invariant
            i <= num_cards,
            i == hand@.len(),
            deck@.len() + i == d0.len(),
            deck@ == d0.take(d0.len() - i),
            hand@ == popped(d0, i as int),
        decreases num_cards - i,
    {
        let c = deck.pop().unwrap();
        hand.push(c);
        i = i + 1;
        assert(deck@ =~= d0.take(d0.len() - i));
        assert(hand@ =~= popped(d0, i as int));
    }
    proof {
        let n = d0.len() as int;
        let k = i as int;
        if d0.no_duplicates() {
            assert forall|a: int, b: int| 0 <= a < k && 0 <= b < n - k implies hand@[a]
                != deck@[b] by {
                assert(hand@[a] == d0[n - 1 - a]);
                assert(deck@[b] == d0[b]);
            }
            assert forall|a: int, b: int| 0 <= a < k && 0 <= b < k && a != b implies hand@[a]
                != hand@[b] by {
                assert(hand@[a] == d0[n - 1 - a]);
                assert(hand@[b] == d0[n - 1 - b]);
            }
            assert forall|a: int, b: int| 0 <= a < n - k && 0 <= b < n - k && a != b implies deck@[a]
                != deck@[b] by {
                assert(deck@[a] == d0[a]);
                assert(deck@[b] == d0[b]);
            }
        }
    }
    hand
}

/// Shuffling is reproducible: two decks holding the same cards in the same
/// order, shuffled with the same seed, come out in the same order, so
/// drawing `n` cards from each (as `draw_hand` does) gives the same hand and
/// leaves the same deck.
pub proof fn lemma_same_seed_same_draw(d1: Seq<Card>, d2: Seq<Card>, seed: u64, n: int)
    requires
        d1 == d2,
    ensures
        seeded_shuffle(d1, seed) == seeded_shuffle(d2, seed),
        ({
            let s1 = seeded_shuffle(d1, seed);
            let s2 = seeded_shuffle(d2, seed);
            let k1 = drawn_count(s1.len() as int, n);
            let k2 = drawn_count(s2.len() as int, n);
            &&& popped(s1, k1) == popped(s2, k2)
            &&& s1.take(s1.len() - k1) == s2.take(s2.len() - k2)
        }),
{
}

} // verus!
