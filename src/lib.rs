//! Poker hand ranking and Monte Carlo equity simulation, with verified contracts.
pub mod card;
pub mod rank;
pub mod hand;
pub mod deck;
pub mod game;
