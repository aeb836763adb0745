//! A Rummy table: the French deck, hands, melds, and the turn-by-turn game.
//!
//! - `card`: suits, ranks, cards, and how they are read and printed.
//! - `order`: putting cards in order, and what holds of cards in order.
//! - `deck`: the deck of fifty-two cards; shuffling and dealing.
//! - `hand`: a player's cards; laying them out and scoring them.
//! - `meld`: books and runs; judging a group of cards.
//! - `strategy`: what a player decides in a turn.
//! - `table`: the rules of a round over the cards on the table.
//! - `game`: the game that holds players to those rules.

pub mod card;
pub mod deck;
pub mod game;
pub mod hand;
pub mod meld;
pub mod order;
pub mod strategy;
pub mod table;

pub use crate::card::{Card, Number, Suit};
pub use crate::deck::Deck;
pub use crate::game::Game;
pub use crate::hand::Hand;
pub use crate::meld::{find_meld, Meld};
pub use crate::strategy::{
    my_draw_strategy, my_play_strategy, DrawAction, MyStrategy, Play, Strategy,
};
pub use crate::table::GameError;
