//! Blackjack simulation engine: shoe, card counting, strategy tables,
//! round resolution and statistics aggregation.

pub mod hand;
pub mod text;
pub mod deck;
pub mod counter;
pub mod strategy;
pub mod game;
pub mod sim;
pub mod spot;
