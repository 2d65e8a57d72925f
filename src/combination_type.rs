use vstd::prelude::*;

use crate::card::{CardValue, SuitSet};
use crate::constant::{DECK_SIZE, MAX_RANK, MIN_RANK, NUM_SUITS, WILDCARD_MAX_RANK};

verus! {

/// What a legal play is: a bomb of rank `0..=5`, or a normal combination.
#[derive(Debug, Copy, Clone, PartialEq, Eq, Structural)]
pub enum CombinationType {
    Bomb(usize),
    Normal(NormalType),
}

/// A normal combination as a rectangle of ranks `start_rank..=end_rank`
/// by `suit_count` suits, plus `num_extra_wildcards` wildcards that could
/// extend it either way.
#[derive(Debug, Copy, Clone, PartialEq, Eq, Structural)]
pub struct NormalType {
    pub start_rank: usize,
    pub end_rank: usize,
    pub suit_count: usize,
    pub num_extra_wildcards: usize,
}

impl NormalType {
    pub open spec fn spec_rank_count(self) -> int {
        self.end_rank - self.start_rank + 1
    }

    pub open spec fn spec_card_count(self) -> int {
        self.suit_count * self.spec_rank_count() + self.num_extra_wildcards
    }

    /// A rectangle of at least one suit and one rank, of no more cards than
    /// the deck has.
    pub open spec fn wf(self) -> bool {
        &&& 1 <= self.suit_count
        &&& self.start_rank <= self.end_rank
        &&& self.start_rank <= WILDCARD_MAX_RANK
        &&& self.spec_card_count() <= DECK_SIZE
    }

    pub fn rank_count(&self) -> (r: usize)
        requires
            self.wf(),
        ensures
            r == self.spec_rank_count(),
    {
        proof {
            lemma_mul_le_card_count(*self);
        }
        self.end_rank - self.start_rank + 1
    }

    pub fn card_count(&self) -> (r: usize)
        requires
            self.wf(),
        ensures
            r == self.spec_card_count(),
    {
        proof {
            lemma_mul_le_card_count(*self);
        }
        self.suit_count * self.rank_count() + self.num_extra_wildcards
    }

    /// The result of `self.has_higher_rank_than(other)`: `self` beats `other`
    /// when both have the same number of cards, the rectangle spanning the
    /// larger suit count and the larger rank count still fits into that
    /// number, and `self` starts at a higher rank. The winner is then read
    /// with that rectangle.
    pub open spec fn beats(self, other: NormalType) -> Option<NormalType> {
        let suits = if self.suit_count >= other.suit_count {
            self.suit_count as int
        } else {
            other.suit_count as int
        };
        let ranks = if self.spec_rank_count() >= other.spec_rank_count() {
            self.spec_rank_count()
        } else {
            other.spec_rank_count()
        };
        if self.spec_card_count() == other.spec_card_count() && suits * ranks
            <= self.spec_card_count() && self.start_rank > other.start_rank {
            Some(
                NormalType {
                    start_rank: self.start_rank,
                    end_rank: (self.start_rank + ranks - 1) as usize,
                    suit_count: suits as usize,
                    num_extra_wildcards: (self.spec_card_count() - suits * ranks) as usize,
                },
            )
        } else {
            None
        }
    }

    /// Checks whether `self` may be played on `other`; if so, returns
    /// `self` with its shape resolved to match `other`'s.
    pub fn has_higher_rank_than(&self, other: &Self) -> (r: Option<NormalType>)
        requires
            self.wf(),
            other.wf(),
        ensures
            r == self.beats(*other),
            r matches Some(t) ==> t.wf() && t.spec_card_count() == self.spec_card_count(),
    {
        let self_count = self.card_count();
        if self_count != other.card_count() {
            return None;
        }
        let combined_suit_count = if self.suit_count >= other.suit_count {
            self.suit_count
        } else {
            other.suit_count
        };
        let self_ranks = self.rank_count();
        let other_ranks = other.rank_count();
        let combined_rank_count = if self_ranks >= other_ranks {
            self_ranks
        } else {
            other_ranks
        };
        proof {
            lemma_mul_le_card_count(*self);
            lemma_mul_le_card_count(*other);
            assert(combined_suit_count <= DECK_SIZE);
            assert(combined_rank_count <= DECK_SIZE);
            assert(combined_suit_count * combined_rank_count <= 1764) by (nonlinear_arith)
                requires
                    combined_suit_count <= 42,
                    combined_rank_count <= 42,
            ;
        }
        let area = combined_suit_count * combined_rank_count;
        if area <= self_count && self.start_rank > other.start_rank {
            let r = NormalType {
                start_rank: self.start_rank,
                end_rank: self.start_rank + combined_rank_count - 1,
                suit_count: combined_suit_count,
                num_extra_wildcards: self_count - area,
            };
            assert(r.spec_card_count() == self.spec_card_count());
            Some(r)
        } else {
            None
        }
    }
}

/// A well-formed rectangle has at most `DECK_SIZE` suits and ranks.
pub proof fn lemma_mul_le_card_count(t: NormalType)
    requires
        t.wf(),
    ensures
        t.suit_count * t.spec_rank_count() <= t.spec_card_count(),
        t.suit_count <= DECK_SIZE,
        t.spec_rank_count() <= DECK_SIZE,
        t.end_rank <= WILDCARD_MAX_RANK + DECK_SIZE,
{
    let s = t.suit_count as int;
    let r = t.spec_rank_count();
    assert(s <= s * r && r <= s * r) by (nonlinear_arith)
        requires
            1 <= s,
            1 <= r,
    ;
}

// ---------------------------------------------------------------------
// What a set of card values shows.
// ---------------------------------------------------------------------

pub open spec fn all_wf(vals: Seq<CardValue>) -> bool {
    forall|i: int| 0 <= i < vals.len() ==> (#[trigger] vals[i]).wf()
}

/// Number of normal (non-wildcard) cards.
pub open spec fn num_normal(vals: Seq<CardValue>) -> nat
    decreases vals.len(),
{
    if vals.len() == 0 {
        0
    } else {
        num_normal(vals.drop_last()) + if vals.last() is Normal {
            1nat
        } else {
            0nat
        }
    }
}

/// Smallest rank among the normal cards (`MAX_RANK + 1` if there are none).
pub open spec fn min_normal_rank(vals: Seq<CardValue>) -> int
    decreases vals.len(),
{
    if vals.len() == 0 {
        MAX_RANK + 1
    } else {
        let m = min_normal_rank(vals.drop_last());
        if vals.last() is Normal && (vals.last().spec_rank() as int) < m {
            vals.last().spec_rank() as int
        } else {
            m
        }
    }
}

/// Largest rank among the normal cards (`MIN_RANK - 1` if there are none).
pub open spec fn max_normal_rank(vals: Seq<CardValue>) -> int
    decreases vals.len(),
{
    if vals.len() == 0 {
        MIN_RANK - 1
    } else {
        let m = max_normal_rank(vals.drop_last());
        if vals.last() is Normal && (vals.last().spec_rank() as int) > m {
            vals.last().spec_rank() as int
        } else {
            m
        }
    }
}

/// Some normal card has suit `s`.
pub open spec fn has_suit(vals: Seq<CardValue>, s: int) -> bool {
    exists|i: int| 0 <= i < vals.len() && vals[i] is Normal && (#[trigger] vals[i])->suit == s
}

pub open spec fn suit_flag(vals: Seq<CardValue>, s: int) -> int {
    if has_suit(vals, s) {
        1
    } else {
        0
    }
}

/// Number of distinct suits among the normal cards.
pub open spec fn suit_count(vals: Seq<CardValue>) -> int {
    suit_flag(vals, 0) + suit_flag(vals, 1) + suit_flag(vals, 2) + suit_flag(vals, 3)
}

/// Some card has rank `r`.
pub open spec fn has_rank(vals: Seq<CardValue>, r: int) -> bool {
    exists|i: int| 0 <= i < vals.len() && (#[trigger] vals[i]).spec_rank() == r
}

/// The ranks that occur are exactly those of `rs`.
pub open spec fn ranks_exactly(vals: Seq<CardValue>, rs: Seq<usize>) -> bool {
    &&& forall|i: int| 0 <= i < vals.len() ==> rs.contains(#[trigger] vals[i].spec_rank())
    &&& forall|j: int| 0 <= j < rs.len() ==> has_rank(vals, #[trigger] rs[j] as int)
}

/// The bomb, if any, that a set of cards forms:
/// 0 is 3-5-7-9 in four different suits, 1 is J-Q, 2 is J-K, 3 is Q-K,
/// 4 is J-Q-K, 5 is 3-5-7-9 in one suit.
pub open spec fn bomb_rank_of(vals: Seq<CardValue>) -> Option<usize> {
    if vals.len() == 4 {
        if ranks_exactly(vals, seq![3usize, 5, 7, 9]) {
            if suit_count(vals) == 4 {
                Some(0usize)
            } else if suit_count(vals) == 1 {
                Some(5usize)
            } else {
                None
            }
        } else {
            None
        }
    } else if ranks_exactly(vals, seq![11usize, 12]) {
        Some(1usize)
    } else if ranks_exactly(vals, seq![11usize, 13]) {
        Some(2usize)
    } else if ranks_exactly(vals, seq![12usize, 13]) {
        Some(3usize)
    } else if ranks_exactly(vals, seq![11usize, 12, 13]) {
        Some(4usize)
    } else {
        None
    }
}

pub open spec fn rect(lo: int, hi: int, suits: int, extra: int) -> NormalType {
    NormalType {
        start_rank: lo as usize,
        end_rank: hi as usize,
        suit_count: suits as usize,
        num_extra_wildcards: extra as usize,
    }
}

/// The normal combination, if any, that a set of cards forms.
///
/// One card is a single. Otherwise the normal cards span the ranks
/// `lo..=hi` and some number of suits; that rectangle must be fillable
/// with the wildcards, and the wildcards left over must extend it by whole
/// ranks, by whole suits, or either way (then they stay counted apart).
/// Two cards of one suit form a pair only with one wildcard.
pub open spec fn normal_type_of(vals: Seq<CardValue>) -> Option<NormalType> {
    let len = vals.len() as int;
    let lo = min_normal_rank(vals);
    let hi = max_normal_rank(vals);
    let suits = suit_count(vals);
    let ranks = hi - lo + 1;
    let wild = len - num_normal(vals);
    if len == 0 {
        None
    } else if len == 1 {
        Some(rect(vals[0].spec_rank() as int, vals[0].spec_rank() as int, 1, 0))
    } else if num_normal(vals) == 0 {
        None
    } else if len == 2 && suits == 1 {
        if wild == 1 {
            Some(rect(lo, hi, 2, 0))
        } else {
            None
        }
    } else if ranks * suits > len {
        None
    } else {
        let extra = len - ranks * suits;
        let by_rank = extra % suits == 0;
        let by_suit = extra % ranks == 0;
        if !by_rank && !by_suit {
            None
        } else if by_rank && !by_suit {
            Some(rect(lo, hi + extra / suits, suits, 0))
        } else if !by_rank && by_suit {
            Some(rect(lo, hi, suits + extra / ranks, 0))
        } else {
            Some(rect(lo, hi, suits, extra))
        }
    }
}

/// What the normal cards show, in ranks and count.
pub proof fn lemma_normal_stats(vals: Seq<CardValue>)
    requires
        all_wf(vals),
    ensures
        num_normal(vals) <= vals.len(),
        num_normal(vals) == 0 ==> min_normal_rank(vals) == MAX_RANK + 1 && max_normal_rank(vals)
            == MIN_RANK - 1,
        num_normal(vals) > 0 ==> MIN_RANK <= min_normal_rank(vals) <= max_normal_rank(vals)
            <= MAX_RANK,
        num_normal(vals) > 0 ==> exists|i: int| 0 <= i < vals.len() && (#[trigger] vals[i]) is Normal,
        num_normal(vals) == 1 ==> min_normal_rank(vals) == max_normal_rank(vals),
    decreases vals.len(),
{
    if vals.len() > 0 {
        let p = vals.drop_last();
        assert forall|i: int| 0 <= i < p.len() implies (#[trigger] p[i]).wf() by {
            assert(p[i] == vals[i]);
        }
        lemma_normal_stats(p);
        let last = vals.len() - 1;
        assert(vals[last].wf());
        if num_normal(p) > 0 {
            let i = choose|i: int| 0 <= i < p.len() && (#[trigger] p[i]) is Normal;
            assert(vals[i] == p[i]);
        }
    }
}

/// With a normal card among them, the cards show at least one suit.
pub proof fn lemma_suit_count_pos(vals: Seq<CardValue>)
    requires
        all_wf(vals),
        num_normal(vals) > 0,
    ensures
        1 <= suit_count(vals) <= NUM_SUITS,
{
    lemma_normal_stats(vals);
    let i = choose|i: int| 0 <= i < vals.len() && (#[trigger] vals[i]) is Normal;
    assert(vals[i].wf());
    assert(has_suit(vals, vals[i]->suit as int));
}

/// Collects the suits of the normal cards.
fn collect_suits(vals: &Vec<CardValue>) -> (r: SuitSet)
    requires
        all_wf(vals@),
    ensures
        r.wf(),
        forall|s: int| 0 <= s < NUM_SUITS ==> r.0@[s] == suit_flag(vals@, s),
        r.size() == suit_count(vals@),
{
    let mut suits = SuitSet::new();
    let mut i: usize = 0;
    while i < vals.len()
        invariant
            i <= vals.len(),
            all_wf(vals@),
            suits.wf(),
            forall|s: int|
                0 <= s < NUM_SUITS ==> (#[trigger] suits.0@[s] == 1 <==> exists|j: int|
                    0 <= j < i && vals@[j] is Normal && (#[trigger] vals@[j])->suit == s),
        decreases vals.len() - i,
    {
        assert(vals@[i as int].wf());
        if let CardValue::Normal { suit, .. } = &vals[i] {
            suits.insert(*suit);
        }
        assert forall|s: int| 0 <= s < NUM_SUITS implies (#[trigger] suits.0@[s] == 1 <==> exists|j: int|
            0 <= j < i + 1 && vals@[j] is Normal && (#[trigger] vals@[j])->suit == s) by {
            if suits.0@[s] == 1 && !(exists|j: int| 0 <= j < i && vals@[j] is Normal && (#[trigger] vals@[j])->suit == s) {
                assert(vals@[i as int] is Normal && vals@[i as int]->suit == s);
            }
        }
        i = i + 1;
    }
    assert forall|s: int| 0 <= s < NUM_SUITS implies suits.0@[s] == suit_flag(vals@, s) by {
        if has_suit(vals@, s) {
            let j = choose|j: int| 0 <= j < vals.len() && vals@[j] is Normal && (#[trigger] vals@[j])->suit == s;
            assert(suits.0@[s] == 1);
        }
    }
    suits
}

/// Counts the normal cards and finds their smallest and largest rank.
fn normal_stats(vals: &Vec<CardValue>) -> (r: (usize, usize, usize))
    requires
        all_wf(vals@),
    ensures
        r.0 == num_normal(vals@),
        r.1 == min_normal_rank(vals@),
        r.2 == max_normal_rank(vals@),
{
    let mut count: usize = 0;
    let mut smallest: usize = MAX_RANK + 1;
    let mut largest: usize = MIN_RANK - 1;
    let mut i: usize = 0;
    while i < vals.len()
        invariant
            i <= vals.len(),
            all_wf(vals@),
            count == num_normal(vals@.take(i as int)),
            smallest == min_normal_rank(vals@.take(i as int)),
            largest == max_normal_rank(vals@.take(i as int)),
            count <= i,
            smallest <= MAX_RANK + 1,
        decreases vals.len() - i,
    {
        let ghost prev = vals@.take(i as int);
        let ghost next = vals@.take(i + 1);
        assert(next.drop_last() =~= prev);
        assert(next.last() == vals@[i as int]);
        assert(vals@[i as int].wf());
        if let CardValue::Normal { rank, .. } = &vals[i] {
            count = count + 1;
            if *rank < smallest {
                smallest = *rank;
            }
            if *rank > largest {
                largest = *rank;
            }
        }
        i = i + 1;
    }
    assert(vals@.take(vals.len() as int) =~= vals@);
    (count, smallest, largest)
}

/// Classifies cards that do not form a bomb as a normal combination.
pub fn is_valid_normal(card_values: &Vec<CardValue>) -> (r: Option<NormalType>)
    requires
        all_wf(card_values@),
        card_values.len() <= DECK_SIZE,
    ensures
        r == normal_type_of(card_values@),
        r matches Some(t) ==> t.wf() && t.spec_card_count() == card_values.len(),
{
    let ghost vals = card_values@;
    let len = card_values.len();
    if len == 0 {
        return None;
    }
    if len == 1 {
        let rank = card_values[0].rank();
        assert(vals[0].wf());
        let r = NormalType { start_rank: rank, end_rank: rank, suit_count: 1, num_extra_wildcards: 0 };
        assert(r.spec_card_count() == 1);
        return Some(r);
    }
    let (num_normal_cards, smallest_rank, largest_rank) = normal_stats(card_values);
    proof {
        lemma_normal_stats(vals);
    }
    if num_normal_cards == 0 {
        return None;
    }
    let suits = collect_suits(card_values);
    let suit_len = suits.len();
    proof {
        lemma_suit_count_pos(vals);
    }
    let number_of_ranks = largest_rank - smallest_rank + 1;
    let num_wildcards = len - num_normal_cards;
    if len == 2 && suit_len == 1 {
        if num_wildcards == 1 {
            assert(smallest_rank == largest_rank);
            let r = NormalType {
                start_rank: smallest_rank,
                end_rank: largest_rank,
                suit_count: 2,
                num_extra_wildcards: 0,
            };
            assert(r.spec_rank_count() == 1);
            assert(r.spec_card_count() == 2);
            return Some(r);
        } else {
            return None;
        }
    }
    assert(number_of_ranks * suit_len <= 9 * 4) by (nonlinear_arith)
        requires
            number_of_ranks <= 9,
            suit_len <= 4,
    ;
    let min_normal_size = number_of_ranks * suit_len;
    if min_normal_size > len {
        return None;
    }
    let num_extra_wildcards = len - min_normal_size;
    let by_rank = num_extra_wildcards % suit_len == 0;
    let by_suit = num_extra_wildcards % number_of_ranks == 0;
    let ghost e = num_extra_wildcards as int;
    let ghost sl = suit_len as int;
    let ghost nr = number_of_ranks as int;
    if !by_rank && !by_suit {
        None
    } else if by_rank && !by_suit {
        let r = NormalType {
            start_rank: smallest_rank,
            end_rank: largest_rank + num_extra_wildcards / suit_len,
            suit_count: suit_len,
            num_extra_wildcards: 0,
        };
        assert(sl * (nr + e / sl) == nr * sl + e) by (nonlinear_arith)
            requires
                e % sl == 0,
                sl >= 1,
        ;
        Some(r)
    } else if !by_rank && by_suit {
        let r = NormalType {
            start_rank: smallest_rank,
            end_rank: largest_rank,
            suit_count: suit_len + num_extra_wildcards / number_of_ranks,
            num_extra_wildcards: 0,
        };
        assert((sl + e / nr) * nr == nr * sl + e) by (nonlinear_arith)
            requires
                e % nr == 0,
                nr >= 1,
        ;
        Some(r)
    } else {
        assert(sl * nr == nr * sl) by (nonlinear_arith);
        Some(
            NormalType {
                start_rank: smallest_rank,
                end_rank: largest_rank,
                suit_count: suit_len,
                num_extra_wildcards,
            },
        )
    }
}

/// Whether some card has rank `r`.
fn find_rank(vals: &Vec<CardValue>, r: usize) -> (b: bool)
    ensures
        b == has_rank(vals@, r as int),
{
    let mut i: usize = 0;
    while i < vals.len()
        invariant
            i <= vals.len(),
            forall|j: int| 0 <= j < i ==> (#[trigger] vals@[j]).spec_rank() != r,
        decreases vals.len() - i,
    {
        if vals[i].rank() == r {
            return true;
        }
        i = i + 1;
    }
    false
}

/// Whether the ranks that occur are exactly those of `rs`.
fn has_exactly_ranks(vals: &Vec<CardValue>, rs: &Vec<usize>) -> (b: bool)
    ensures
        b == ranks_exactly(vals@, rs@),
{
    let mut i: usize = 0;
    while i < vals.len()
        invariant
            i <= vals.len(),
            forall|j: int| 0 <= j < i ==> rs@.contains(#[trigger] vals@[j].spec_rank()),
        decreases vals.len() - i,
    {
        let r = vals[i].rank();
        let mut k: usize = 0;
        let mut found = false;
        while k < rs.len()
            invariant
                k <= rs.len(),
                found <==> exists|m: int| 0 <= m < k && rs@[m] == r,
            decreases rs.len() - k,
        {
            if rs[k] == r {
                found = true;
            }
            k = k + 1;
        }
        if !found {
            assert(!rs@.contains(vals@[i as int].spec_rank()));
            return false;
        }
        i = i + 1;
    }
    let mut k: usize = 0;
    while k < rs.len()
        invariant
            k <= rs.len(),
            forall|j: int| 0 <= j < k ==> has_rank(vals@, #[trigger] rs@[j] as int),
        decreases rs.len() - k,
    {
        if !find_rank(vals, rs[k]) {
            return false;
        }
        k = k + 1;
    }
    true
}

/// The bomb rank of the cards, if they form a bomb.
pub fn is_bomb(card_values: &Vec<CardValue>) -> (r: Option<usize>)
    requires
        all_wf(card_values@),
    ensures
        r == bomb_rank_of(card_values@),
{
    if card_values.len() == 4 {
        let odd = vec![3usize, 5, 7, 9];
        assert(odd@ =~= seq![3usize, 5, 7, 9]);
        if has_exactly_ranks(card_values, &odd) {
            let suits = collect_suits(card_values);
            let n = suits.len();
            if n == 4 {
                Some(0)
            } else if n == 1 {
                Some(5)
            } else {
                None
            }
        } else {
            None
        }
    } else {
        let jq = vec![11usize, 12];
        let jk = vec![11usize, 13];
        let qk = vec![12usize, 13];
        let jqk = vec![11usize, 12, 13];
        assert(jq@ =~= seq![11usize, 12]);
        assert(jk@ =~= seq![11usize, 13]);
        assert(qk@ =~= seq![12usize, 13]);
        assert(jqk@ =~= seq![11usize, 12, 13]);
        if has_exactly_ranks(card_values, &jq) {
            Some(1)
        } else if has_exactly_ranks(card_values, &jk) {
            Some(2)
        } else if has_exactly_ranks(card_values, &qk) {
            Some(3)
        } else if has_exactly_ranks(card_values, &jqk) {
            Some(4)
        } else {
            None
        }
    }
}

} // verus!
