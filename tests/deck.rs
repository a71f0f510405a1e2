use five_card_draw::{build_deck, draw_hand, shuffle_deck, Card, Suit};

fn key(c: &Card) -> (u8, i32) {
    let s = match c.suit {
        Suit::Club => 0,
        Suit::Diamond => 1,
        Suit::Heart => 2,
        Suit::Spade => 3,
    };
    (s, c.rank)
}

fn sorted_keys(cards: &[Card]) -> Vec<(u8, i32)> {
    let mut k: Vec<(u8, i32)> = cards.iter().map(key).collect();
    k.sort();
    k
}

#[test]
fn deck_has_all_52_cards_once() {
    let deck = build_deck();
    assert_eq!(deck.len(), 52);
    let keys = sorted_keys(&deck);
    let mut expected = Vec::new();
    for s in 0..4u8 {
        for r in 1..=13 {
            expected.push((s, r));
        }
    }
    assert_eq!(keys, expected);
}

#[test]
fn deck_order_is_fixed() {
    let deck = build_deck();
    assert_eq!(deck[0], Card::new(Suit::Club, 1));
    assert_eq!(deck[12], Card::new(Suit::Club, 13));
    assert_eq!(deck[13], Card::new(Suit::Diamond, 1));
    assert_eq!(deck[26], Card::new(Suit::Heart, 1));
    assert_eq!(deck[51], Card::new(Suit::Spade, 13));
    assert_eq!(build_deck(), deck);
}

#[test]
fn card_new_keeps_fields() {
    let c = Card::new(Suit::Diamond, 11);
    assert_eq!(c.suit, Suit::Diamond);
    assert_eq!(c.rank, 11);
    assert_eq!(Suit::Club.name(), "Club");
    assert_eq!(Suit::Diamond.name(), "Diamond");
    assert_eq!(Suit::Heart.name(), "Heart");
    assert_eq!(Suit::Spade.name(), "Spade");
}

#[test]
fn shuffle_keeps_the_cards() {
    let mut deck = build_deck();
    shuffle_deck(&mut deck, 7);
    assert_eq!(deck.len(), 52);
    assert_eq!(sorted_keys(&deck), sorted_keys(&build_deck()));
}

#[test]
fn shuffle_changes_the_order() {
    let mut deck = build_deck();
    shuffle_deck(&mut deck, 7);
    assert_ne!(deck, build_deck());
}

#[test]
fn shuffle_is_reproducible_for_a_seed() {
    let mut a = build_deck();
    let mut b = build_deck();
    shuffle_deck(&mut a, 12345);
    shuffle_deck(&mut b, 12345);
    assert_eq!(a, b);
    let mut c = build_deck();
    shuffle_deck(&mut c, 54321);
    assert_ne!(a, c);
}

#[test]
fn shuffle_of_empty_and_single_decks() {
    let mut empty: Vec<Card> = Vec::new();
    shuffle_deck(&mut empty, 1);
    assert!(empty.is_empty());
    let mut one = vec![Card::new(Suit::Heart, 4)];
    shuffle_deck(&mut one, 1);
    assert_eq!(one, vec![Card::new(Suit::Heart, 4)]);
}

#[test]
fn draw_takes_from_the_end() {
    let mut deck = build_deck();
    let hand = draw_hand(&mut deck, 5);
    assert_eq!(deck.len(), 47);
    assert_eq!(
        hand,
        vec![
            Card::new(Suit::Spade, 13),
            Card::new(Suit::Spade, 12),
            Card::new(Suit::Spade, 11),
            Card::new(Suit::Spade, 10),
            Card::new(Suit::Spade, 9),
        ]
    );
    for c in &hand {
        assert!(!deck.contains(c));
    }
    assert_eq!(deck[..], build_deck()[..47]);
}

#[test]
fn draw_from_shuffled_deck_is_disjoint() {
    let mut deck = build_deck();
    shuffle_deck(&mut deck, 99);
    let hand = draw_hand(&mut deck, 10);
    assert_eq!(hand.len(), 10);
    assert_eq!(deck.len(), 42);
    for c in &hand {
        assert!(!deck.contains(c));
    }
}

#[test]
fn draw_more_than_left_takes_all() {
    let mut deck = vec![Card::new(Suit::Club, 2), Card::new(Suit::Heart, 9)];
    let hand = draw_hand(&mut deck, 5);
    assert_eq!(hand, vec![Card::new(Suit::Heart, 9), Card::new(Suit::Club, 2)]);
    assert!(deck.is_empty());
}

#[test]
fn draw_zero_leaves_deck() {
    let mut deck = build_deck();
    let hand = draw_hand(&mut deck, 0);
    assert!(hand.is_empty());
    assert_eq!(deck, build_deck());
}
