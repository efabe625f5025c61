//! Solitaire simulation of a deck: decode a deck from its wire format, deal
//! and mulligan an opening hand, and play the turns into a per-game record.

pub mod codec;
pub mod game_engine;
pub mod game_model;
pub mod land_count;
pub mod mana_pool;
pub mod rng;
pub mod tally;
pub mod types;
