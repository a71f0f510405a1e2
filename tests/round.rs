use five_card_draw::{
    build_deck, draw_hand, evaluate_hand, parse_indices, replace_cards, shuffle_deck, sort_by_rank,
    Card, HandRank, Suit,
};

#[test]
fn seeded_round_is_predictable() {
    let mut deck = build_deck();
    shuffle_deck(&mut deck, 42);
    let mut hand = draw_hand(&mut deck, 5);
    sort_by_rank(&mut hand);
    assert_eq!(
        hand,
        vec![
            Card::new(Suit::Heart, 2),
            Card::new(Suit::Spade, 4),
            Card::new(Suit::Heart, 5),
            Card::new(Suit::Club, 13),
            Card::new(Suit::Spade, 13),
        ]
    );
    assert_eq!(deck.len(), 47);
    assert_eq!(deck[46], Card::new(Suit::Spade, 8));
    assert_eq!(deck[45], Card::new(Suit::Diamond, 6));

    let indices = parse_indices("1 3");
    assert_eq!(indices, vec![1, 3]);
    let rejected = replace_cards(&mut hand, &mut deck, &indices);
    assert!(rejected.is_empty());
    assert_eq!(deck.len(), 45);
    assert_eq!(
        hand,
        vec![
            Card::new(Suit::Spade, 4),
            Card::new(Suit::Diamond, 6),
            Card::new(Suit::Spade, 8),
            Card::new(Suit::Club, 13),
            Card::new(Suit::Spade, 13),
        ]
    );
    assert_eq!(evaluate_hand(&hand), HandRank::OnePair);
    assert_eq!(evaluate_hand(&hand).label(), "One pair");
}
