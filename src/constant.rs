use vstd::prelude::*;

verus! {

/// Number of normal cards set aside, face down, at the deal.
pub const HAGGIS_SIZE: usize = 8;

/// Wildcards (one J, one Q and one K) that each player holds at the deal.
pub const NUM_WILDCARDS_PER_PLAYER: usize = 3;

pub const NUM_PLAYERS: usize = 2;

/// Lowest rank of a normal card.
pub const MIN_RANK: usize = 2;

/// Highest rank of a normal card.
pub const MAX_RANK: usize = 10;

pub const NUM_RANKS: usize = MAX_RANK - MIN_RANK + 1;

pub const NUM_SUITS: usize = 4;

/// Normal cards carry the ids `0..NUM_NORMAL`, wildcards the ids after them.
pub const NUM_NORMAL: usize = NUM_RANKS * NUM_SUITS;

pub const DECK_SIZE: usize = NUM_NORMAL + NUM_WILDCARDS_PER_PLAYER * NUM_PLAYERS;

/// Normal cards in each player's hand at the deal.
pub const INIT_HAND_SIZE_WO_WILDCARD: usize = (NUM_NORMAL - HAGGIS_SIZE) / 2;

/// Rank of the J wildcard; Q and K follow it.
pub const WILDCARD_MIN_RANK: usize = 11;

/// Rank of the K wildcard.
pub const WILDCARD_MAX_RANK: usize = 13;

/// Most cards that a player can hold.
pub const MAX_HAND_SIZE: usize = INIT_HAND_SIZE_WO_WILDCARD + NUM_WILDCARDS_PER_PLAYER;

} // verus!
