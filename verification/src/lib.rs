//! A single-deck Blackjack rules engine: card model, shuffling,
//! hand valuation with flexible Ace scoring, dealer policy, and
//! round resolution.

pub mod game;
pub mod round;
