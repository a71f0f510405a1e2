use vstd::prelude::*;

verus! {

/// The four suits of a standard deck.
#[derive(Clone, Copy, Debug, PartialEq, Eq, Structural)]
pub enum Suit {
    Club,
    Diamond,
    Heart,
    Spade,
}

/// The suit at position `k` of the fixed enumeration order Club, Diamond,
/// Heart, Spade.
pub open spec fn suit_at(k: int) -> Suit {
    if k == 0 {
        Suit::Club
    } else if k == 1 {
        Suit::Diamond
    } else if k == 2 {
        Suit::Heart
    } else {
        Suit::Spade
    }
}

/// Position of a suit in the enumeration order; inverse of `suit_at`.
pub open spec fn suit_index(s: Suit) -> int {
    match s {
        Suit::Club => 0,
        Suit::Diamond => 1,
        Suit::Heart => 2,
        Suit::Spade => 3,
    }
}

impl Suit {
    /// The suit's name as it is shown to a player.
    pub fn name(&self) -> (r: &'static str)
        ensures
            r@ == suit_name(*self)@,
    {
        match self {
            Suit::Club => "Club",
            Suit::Diamond => "Diamond",
            Suit::Heart => "Heart",
            Suit::Spade => "Spade",
        }
    }
}

/// Display names of the suits.
pub open spec fn suit_name(s: Suit) -> &'static str {
    match s {
        Suit::Club => "Club",
        Suit::Diamond => "Diamond",
        Suit::Heart => "Heart",
        Suit::Spade => "Spade",
    }
}

/// One playing card: a suit and a rank from 1 (ace) to 13 (king).
#[derive(Clone, Copy, Debug, PartialEq, Eq, Structural)]
pub struct Card {
    pub suit: Suit,
    pub rank: i32,
}

impl Card {
    /// A card is well formed when its rank lies in 1..=13.
    pub open spec fn valid(self) -> bool {
        1 <= self.rank <= 13
    }

    /// The card of the given suit and rank.
    pub fn new(suit: Suit, rank: i32) -> (r: Card)
        requires
            1 <= rank <= 13,
        ensures
            r.suit == suit,
            r.rank == rank,
            r.valid(),
    {
        Card { suit, rank }
    }
}

} // verus!
