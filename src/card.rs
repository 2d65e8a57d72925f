use vstd::prelude::*;

use crate::constant::{
    DECK_SIZE, NUM_NORMAL, NUM_RANKS, NUM_SUITS, WILDCARD_MAX_RANK, WILDCARD_MIN_RANK,
};

verus! {

/// The two seats, always seen from the local player's side.
#[derive(Debug, Copy, Clone, PartialEq, Eq, Structural)]
pub enum Player {
    Me,
    Opponent,
}

impl Player {
    pub open spec fn spec_other(self) -> Player {
        match self {
            Player::Me => Player::Opponent,
            Player::Opponent => Player::Me,
        }
    }

    /// The player in the other seat.
    #[verifier::when_used_as_spec(spec_other)]
    pub fn other(self) -> (r: Self)
        ensures
            r == self.spec_other(),
            r != self,
            r.spec_other() == self,
    {
        match self {
            Player::Me => Player::Opponent,
            Player::Opponent => Player::Me,
        }
    }
}

/// What a card shows: a normal card has a rank in `2..=10` and a suit in
/// `0..4`; a wildcard has a rank in `11..=13` (J, Q, K) and no suit.
#[derive(Debug, Copy, Clone, PartialEq, Eq, Structural)]
pub enum CardValue {
    Normal { rank: usize, suit: usize },
    Wildcard { rank: usize },
}

impl CardValue {
    /// Ranks and suits lie in the ranges that the deck uses.
    pub open spec fn wf(self) -> bool {
        match self {
            CardValue::Normal { rank, suit } => 2 <= rank <= 10 && suit < NUM_SUITS,
            CardValue::Wildcard { rank } => WILDCARD_MIN_RANK <= rank <= WILDCARD_MAX_RANK,
        }
    }

    pub open spec fn spec_rank(&self) -> usize {
        match *self {
            CardValue::Normal { rank, .. } => rank,
            CardValue::Wildcard { rank } => rank,
        }
    }

    pub open spec fn is_normal(self) -> bool {
        self is Normal
    }

    /// Points scored at the end of a game: odd normal ranks score one,
    /// J, Q and K score 2, 3 and 5.
    pub open spec fn points(self) -> nat {
        match self {
            CardValue::Normal { rank, .. } => (rank % 2) as nat,
            CardValue::Wildcard { rank } => if rank == 11 {
                2
            } else if rank == 12 {
                3
            } else {
                5
            },
        }
    }

    /// How many points this card value scores at the end of a game.
    pub fn point_value(&self) -> (r: usize)
        requires
            self.wf(),
        ensures
            r == self.points(),
            r <= 5,
    {
        match self {
            CardValue::Normal { rank, .. } => *rank % 2,
            CardValue::Wildcard { rank } => {
                if *rank == 11 {
                    2
                } else if *rank == 12 {
                    3
                } else {
                    5
                }
            },
        }
    }

    #[verifier::when_used_as_spec(spec_rank)]
    pub fn rank(&self) -> (r: usize)
        ensures
            r == self.spec_rank(),
    {
        match self {
            CardValue::Normal { rank, .. } => *rank,
            CardValue::Wildcard { rank } => *rank,
        }
    }
}

/// The value that the card with the given id shows.
///
/// Ids `0..36` are the normal cards, suit by suit, ranks 2 to 10 within a
/// suit; ids `36..42` are J, Q, K, J, Q, K.
pub open spec fn card_value(id: int) -> CardValue {
    if id < NUM_NORMAL {
        CardValue::Normal { rank: (2 + id % NUM_RANKS as int) as usize, suit: (id / NUM_RANKS as int) as usize }
    } else {
        CardValue::Wildcard { rank: (WILDCARD_MIN_RANK + id % 3) as usize }
    }
}

pub proof fn lemma_card_value_wf(id: int)
    requires
        0 <= id < DECK_SIZE,
    ensures
        card_value(id).wf(),
        card_value(id).spec_rank() <= WILDCARD_MAX_RANK,
{
    if id < NUM_NORMAL {
        assert(id / 9 < 4) by (nonlinear_arith)
            requires
                0 <= id < 36,
        ;
    }
}

/// Identifier of one of the `DECK_SIZE` cards.
#[derive(Copy, Clone, Eq, PartialEq, Debug, Structural)]
pub struct CardId(pub usize);

impl CardId {
    pub fn to_value(self) -> (r: CardValue)
        requires
            self.0 < DECK_SIZE,
        ensures
            r == card_value(self.0 as int),
            r.wf(),
    {
        proof {
            lemma_card_value_wf(self.0 as int);
        }
        if self.0 < NUM_NORMAL {
            CardValue::Normal { rank: 2 + (self.0 % NUM_RANKS), suit: self.0 / NUM_RANKS }
        } else {
            CardValue::Wildcard { rank: WILDCARD_MIN_RANK + (self.0 % 3) }
        }
    }
}

/// The set of suits seen so far, one flag (0 or 1) per suit.
pub struct SuitSet(pub [usize; NUM_SUITS]);

impl SuitSet {
    pub open spec fn wf(&self) -> bool {
        forall|s: int| 0 <= s < NUM_SUITS ==> #[trigger] self.0@[s] <= 1
    }

    pub open spec fn has(&self, s: int) -> bool {
        self.0@[s] == 1
    }

    /// Number of suits in the set.
    pub open spec fn size(&self) -> nat {
        (self.0@[0] + self.0@[1] + self.0@[2] + self.0@[3]) as nat
    }

    pub fn new() -> (r: Self)
        ensures
            r.wf(),
            forall|s: int| 0 <= s < NUM_SUITS ==> !#[trigger] r.has(s),
            r.size() == 0,
    {
        SuitSet([0, 0, 0, 0])
    }

    pub fn insert(&mut self, suit: usize)
        requires
            old(self).wf(),
            suit < NUM_SUITS,
        ensures
            final(self).wf(),
            final(self).0@ == old(self).0@.update(suit as int, 1),
    {
        self.0[suit] = 1;
    }

    pub fn len(&self) -> (r: usize)
        requires
            self.wf(),
        ensures
            r == self.size(),
            r <= NUM_SUITS,
    {
        self.0[0] + self.0[1] + self.0[2] + self.0[3]
    }
}

/// Where a card is.
#[derive(Debug, Copy, Clone, PartialEq, Eq, Structural)]
pub enum Location {
    /// Set aside at the deal, face down.
    Haggis,
    Hand(Player),
    /// Played. `order` counts the combinations played in the whole game
    /// before this card's own, so all cards of one combination share it.
    /// `captured_by` is set when the combination group ends, and
    /// `in_last_combination_before_pass` marks the cards of the group's last
    /// combination at that moment.
    Table { captured_by: Option<Player>, order: usize, in_last_combination_before_pass: bool },
}

impl Location {
    /// Who captured a played card.
    pub fn captured_by(&self) -> (r: Option<Player>)
        requires
            self is Table,
        ensures
            r == self->captured_by,
    {
        match self {
            Location::Table { captured_by, .. } => *captured_by,
            _ => None,
        }
    }
}

/// Reads a card value as printed: a rank `2`..`10` followed by a suit
/// symbol (spades, hearts, diamonds, clubs), or a bare `J`, `Q` or `K`.
impl std::str::FromStr for CardValue {
    type Err = ();

    fn from_str(s: &str) -> Result<CardValue, ()> {
        let mut chars = s.chars();
        let rank: usize = match chars.next() {
            Some('2') => 2,
            Some('3') => 3,
            Some('4') => 4,
            Some('5') => 5,
            Some('6') => 6,
            Some('7') => 7,
            Some('8') => 8,
            Some('9') => 9,
            Some('1') => match chars.next() {
                Some('0') => 10,
                _ => 0,
            },
            Some('J') => 11,
            Some('Q') => 12,
            Some('K') => 13,
            _ => 0,
        };
        let suit: usize = match chars.next() {
            Some('\u{2660}') => 0,
            Some('\u{2665}') => 1,
            Some('\u{2666}') => 2,
            Some('\u{2663}') => 3,
            _ => 4,
        };
        if 2 <= rank && rank <= 10 && suit < NUM_SUITS {
            Ok(CardValue::Normal { rank, suit })
        } else if WILDCARD_MIN_RANK <= rank && rank <= WILDCARD_MAX_RANK && suit == NUM_SUITS {
            Ok(CardValue::Wildcard { rank })
        } else {
            Err(())
        }
    }
}

} // verus!
