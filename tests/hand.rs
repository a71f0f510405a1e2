use five_card_draw::{replace_cards, sort_by_rank, swap_in_cards, Card, Suit};

fn c(suit: Suit, rank: i32) -> Card {
    Card::new(suit, rank)
}

fn five() -> Vec<Card> {
    vec![
        c(Suit::Club, 2),
        c(Suit::Diamond, 5),
        c(Suit::Heart, 7),
        c(Suit::Spade, 9),
        c(Suit::Club, 12),
    ]
}

fn small_deck() -> Vec<Card> {
    vec![c(Suit::Heart, 1), c(Suit::Diamond, 13), c(Suit::Spade, 3)]
}

#[test]
fn sort_orders_by_rank() {
    let mut hand = vec![
        c(Suit::Club, 9),
        c(Suit::Heart, 2),
        c(Suit::Spade, 13),
        c(Suit::Diamond, 1),
        c(Suit::Club, 5),
    ];
    sort_by_rank(&mut hand);
    let ranks: Vec<i32> = hand.iter().map(|x| x.rank).collect();
    assert_eq!(ranks, vec![1, 2, 5, 9, 13]);
    for w in hand.windows(2) {
        assert!(w[0].rank <= w[1].rank);
    }
}

#[test]
fn sort_keeps_equal_ranks_in_order() {
    let mut hand = vec![
        c(Suit::Spade, 4),
        c(Suit::Club, 2),
        c(Suit::Heart, 4),
        c(Suit::Diamond, 4),
        c(Suit::Club, 1),
    ];
    sort_by_rank(&mut hand);
    assert_eq!(
        hand,
        vec![
            c(Suit::Club, 1),
            c(Suit::Club, 2),
            c(Suit::Spade, 4),
            c(Suit::Heart, 4),
            c(Suit::Diamond, 4),
        ]
    );
}

#[test]
fn sort_of_empty_hand() {
    let mut hand: Vec<Card> = Vec::new();
    sort_by_rank(&mut hand);
    assert!(hand.is_empty());
}

#[test]
fn swap_in_changes_only_requested_positions() {
    let mut hand = five();
    let mut deck = small_deck();
    let rejected = swap_in_cards(&mut hand, &mut deck, &[2, 4]);
    assert!(rejected.is_empty());
    assert_eq!(hand.len(), 5);
    assert_eq!(
        hand,
        vec![
            c(Suit::Club, 2),
            c(Suit::Spade, 3),
            c(Suit::Heart, 7),
            c(Suit::Diamond, 13),
            c(Suit::Club, 12),
        ]
    );
    assert_eq!(deck, vec![c(Suit::Heart, 1)]);
}

#[test]
fn out_of_range_position_is_rejected() {
    let mut hand = five();
    let mut deck = small_deck();
    let rejected = swap_in_cards(&mut hand, &mut deck, &[7, 0]);
    assert_eq!(rejected, vec![7, 0]);
    assert_eq!(hand, five());
    assert_eq!(deck, small_deck());
}

#[test]
fn replace_with_empty_deck_keeps_hand() {
    let mut hand = five();
    let mut deck: Vec<Card> = Vec::new();
    let rejected = replace_cards(&mut hand, &mut deck, &[1, 2, 3]);
    assert!(rejected.is_empty());
    assert_eq!(hand, five());
}

#[test]
fn replace_stops_when_deck_runs_out() {
    let mut hand = five();
    let mut deck = vec![c(Suit::Heart, 6)];
    swap_in_cards(&mut hand, &mut deck, &[1, 5]);
    assert_eq!(hand[0], c(Suit::Heart, 6));
    assert_eq!(hand[4], c(Suit::Club, 12));
    assert!(deck.is_empty());
}

#[test]
fn repeated_position_is_replaced_twice() {
    let mut hand = five();
    let mut deck = small_deck();
    swap_in_cards(&mut hand, &mut deck, &[3, 3]);
    assert_eq!(hand[2], c(Suit::Diamond, 13));
    assert_eq!(deck, vec![c(Suit::Heart, 1)]);
}

#[test]
fn replace_sorts_and_reports_rejected() {
    let mut hand = five();
    let mut deck = small_deck();
    let rejected = replace_cards(&mut hand, &mut deck, &[2, 7, 4]);
    assert_eq!(rejected, vec![7]);
    assert_eq!(
        hand,
        vec![
            c(Suit::Club, 2),
            c(Suit::Spade, 3),
            c(Suit::Heart, 7),
            c(Suit::Club, 12),
            c(Suit::Diamond, 13),
        ]
    );
    assert_eq!(deck, vec![c(Suit::Heart, 1)]);
}
