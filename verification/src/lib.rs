//! A two-player cribbage engine: the play and show scorers, the
//! probability-weighted decision engine built on them, and the round
//! state machine that enforces the game's structure and legality.

pub mod ai;
pub mod card;
pub mod counting;
pub mod game;
pub mod score_hand;
pub mod the_play;
