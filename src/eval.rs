use std::collections::HashMap;
use vstd::prelude::*;

use crate::card::Card;

verus! {

broadcast use vstd::std_specs::hash::group_hash_axioms;

/// The classes a hand can fall in, highest first.
#[derive(Clone, Copy, Debug, PartialEq, Eq, Structural)]
pub enum HandRank {
    Flush,
    ThreeOfAKind,
    TwoPair,
    OnePair,
    Nothing,
}

impl HandRank {
    /// The class's name as it is announced to a player.
    pub fn label(&self) -> (r: &'static str)
        ensures
            r@ == hand_rank_label(*self)@,
    {
        match self {
            HandRank::Flush => "Flush",
            HandRank::ThreeOfAKind => "Three of a kind",
            HandRank::TwoPair => "Two pair",
            HandRank::OnePair => "One pair",
            HandRank::Nothing => "Nothing",
        }
    }
}

/// Announced names of the hand classes.
pub open spec fn hand_rank_label(r: HandRank) -> &'static str {
    match r {
        HandRank::Flush => "Flush",
        HandRank::ThreeOfAKind => "Three of a kind",
        HandRank::TwoPair => "Two pair",
        HandRank::OnePair => "One pair",
        HandRank::Nothing => "Nothing",
    }
}

/// Every card has the suit of the first one.
pub open spec fn all_same_suit(s: Seq<Card>) -> bool {
    forall|i: int| 0 <= i < s.len() ==> #[trigger] s[i].suit == s[0].suit
}

/// How many cards of `s` have rank `r`.
pub open spec fn rank_count(s: Seq<Card>, r: i32) -> nat
    decreases s.len(),
{
    if s.len() == 0 {
        0
    } else {
        rank_count(s.drop_last(), r) + if s.last().rank == r {
            1nat
        } else {
            0nat
        }
    }
}

/// Some rank occurs exactly three times.
pub open spec fn has_three_of_a_rank(s: Seq<Card>) -> bool {
    exists|i: int| 0 <= i < s.len() && rank_count(s, #[trigger] s[i].rank) == 3
}

/// How many of the first `n` cards of `s` have a rank that occurs exactly
/// twice in `s`.
pub open spec fn paired_prefix(s: Seq<Card>, n: int) -> nat
    decreases n,
{
    if n <= 0 {
        0
    } else {
        paired_prefix(s, n - 1) + if rank_count(s, s[n - 1].rank) == 2 {
            1nat
        } else {
            0nat
        }
    }
}

/// How many cards belong to a rank that occurs exactly twice: two for each
/// such rank, so 4 means two pairs and 2 means one.
pub open spec fn paired_cards(s: Seq<Card>) -> nat {
    paired_prefix(s, s.len() as int)
}

/// The class of a hand, the first that applies: all one suit; some rank
/// three times; two ranks twice each; some rank twice; none of these.
pub open spec fn classify(s: Seq<Card>) -> HandRank {
    if all_same_suit(s) {
        HandRank::Flush
    } else if has_three_of_a_rank(s) {
        HandRank::ThreeOfAKind
    } else if paired_cards(s) == 4 {
        HandRank::TwoPair
    } else if paired_cards(s) > 0 {
        HandRank::OnePair
    } else {
        HandRank::Nothing
    }
}

/// Whether all cards of a non-empty hand share one suit.
pub fn check_flush(hand: &[Card]) -> (r: bool)
    requires
        hand@.len() > 0,
    ensures
        r == all_same_suit(hand@),
{
    let suit = hand[0].suit;
    let mut i: usize = 1;
    while i < hand.len()
        invariant
            1 <= i <= hand@.len(),
            suit == hand@[0].suit,
            forall|j: int| 0 <= j < i ==> #[trigger] hand@[j].suit == suit,
        decreases hand@.len() - i,
    {
        if hand[i].suit != suit {
            return false;
        }
        i = i + 1;
    }
    true
}

proof fn lemma_rank_count_bounds(s: Seq<Card>, r: i32)
    ensures
        rank_count(s, r) <= s.len(),
        forall|i: int| 0 <= i < s.len() && #[trigger] s[i].rank == r ==> rank_count(s, r) >= 1,
    decreases s.len(),
{
    if s.len() > 0 {
        lemma_rank_count_bounds(s.drop_last(), r);
        assert forall|i: int| 0 <= i < s.len() - 1 implies s[i] == s.drop_last()[i] by {}
    }
}

/// Counts the cards of each rank in the hand: the map holds exactly the
/// ranks that occur, each with its number of cards.
pub fn check_pairs(hand: &[Card]) -> (counts: HashMap<i32, usize>)
    ensures
        forall|r: i32| #[trigger] counts@.contains_key(r) <==> rank_count(hand@, r) > 0,
        forall|r: i32| #[trigger] counts@.contains_key(r) ==> counts@[r] == rank_count(hand@, r),
{
    let mut counts: HashMap<i32, usize> = HashMap::new();
    let mut i: usize = 0;
    while i < hand.len()
        invariant
            i <= hand@.len(),
            forall|r: i32| #[trigger]
                counts@.contains_key(r) <==> rank_count(hand@.take(i as int), r) > 0,
            forall|r: i32| #[trigger]
                counts@.contains_key(r) ==> counts@[r] == rank_count(hand@.take(i as int), r),
        decreases hand@.len() - i,
    {
        let rank = hand[i].rank;
        proof {
            assert(hand@.take(i + 1).drop_last() =~= hand@.take(i as int));
            lemma_rank_count_bounds(hand@.take(i as int), rank);
        }
        let n: usize = match counts.get(&rank) {
            Some(v) => *v,
            None => 0,
        };
        counts.insert(rank, n + 1);
        i = i + 1;
    }
    proof {
        assert(hand@.take(i as int) =~= hand@);
    }
    counts
}

/// Classifies a five-card hand.
pub fn evaluate_hand(hand: &[Card]) -> (r: HandRank)
    requires
        hand@.len() == 5,
    ensures
        r == classify(hand@),
{
    if check_flush(hand) {
        return HandRank::Flush;
    }
    let counts = check_pairs(hand);
    let mut three = false;
    let mut paired: usize = 0;
    let mut i: usize = 0;
    while i < hand.len()
        invariant
            i <= hand@.len() == 5,
            forall|r: i32| #[trigger] counts@.contains_key(r) <==> rank_count(hand@, r) > 0,
            forall|r: i32| #[trigger]
                counts@.contains_key(r) ==> counts@[r] == rank_count(hand@, r),
            three == exists|j: int| 0 <= j < i && rank_count(hand@, #[trigger] hand@[j].rank) == 3,
            paired == paired_prefix(hand@, i as int),
            paired <= i,
        decreases hand@.len() - i,
    {
        let rank = hand[i].rank;
        proof {
            lemma_rank_count_bounds(hand@, rank);
            assert(hand@[i as int].rank == rank);
        }
        let n: usize = match counts.get(&rank) {
            Some(v) => *v,
            None => 0,
        };
        if n == 3 {
            three = true;
        }
        if n == 2 {
            paired = paired + 1;
        }
        i = i + 1;
    }
    if three {
        HandRank::ThreeOfAKind
    } else if paired == 4 {
        HandRank::TwoPair
    } else if paired > 0 {
        HandRank::OnePair
    } else {
        HandRank::Nothing
    }
}

} // verus!
