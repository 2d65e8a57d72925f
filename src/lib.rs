//! State of a two-player game of Haggis, the rules that decide which plays
//! are legal, and a fixed 32-byte encoding of a whole game.

pub mod constant;
pub mod card;
pub mod combination_type;
pub mod game;
pub mod bignum;
pub mod binomial;
pub mod card_order;
pub mod compression;
pub mod round_trip;
