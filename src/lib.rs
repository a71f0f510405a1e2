//! A single round of five-card draw poker: a standard deck, a seeded
//! shuffle, dealing, discarding and redrawing, and a small hand classifier.
pub mod card;
pub mod deck;
pub mod eval;
pub mod hand;
pub mod input;

pub use card::{Card, Suit};
pub use deck::{build_deck, draw_hand, shuffle_deck};
pub use hand::{replace_cards, sort_by_rank, swap_in_cards};
pub use eval::{check_flush, check_pairs, evaluate_hand, HandRank};
pub use input::parse_indices;
