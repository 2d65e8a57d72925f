use vstd::prelude::*;

use crate::bignum::{be_value, pad_be};
use crate::binomial::{
    binomial, lemma_binomial_absorption, lemma_binomial_diagonal, lemma_initial_hands,
};
use crate::card::{Location, Player};
use crate::card_order::{
    compress_card_order, decompress_card_order, is_order_prefix, mixed_radix, order_digits,
    unrank_order, CARD_ORDER_BYTE_LEN, CARD_ORDER_LEN,
};
use crate::constant::{DECK_SIZE, INIT_HAND_SIZE_WO_WILDCARD, MAX_HAND_SIZE, NUM_NORMAL};
use crate::game::{count_where, hand_of, Game, GameView};

verus! {

// ---------------------------------------------------------------------
// Binomial coefficients and the rank of an initial hand.
// ---------------------------------------------------------------------

/// `C(n, k)`, by multiplying and dividing in turn so that every
/// intermediate value is itself a binomial coefficient.
pub fn n_choose_k(n: usize, k: usize) -> (r: u32)
    requires
        k <= n <= u32::MAX,
        binomial(n as nat, k as nat) <= u32::MAX,
    ensures
        r == binomial(n as nat, k as nat),
{
    let n = n as u64;
    let k = k as u64;
    let mut coefficient: u64 = 1;
    let mut i: u64 = 0;
    while i < k
        invariant
            i <= k <= n <= u32::MAX,
            binomial(n as nat, k as nat) <= u32::MAX,
            coefficient == binomial((n - k + i) as nat, i as nat),
        decreases k - i,
    {
        let ghost m = (n - k + i) as nat;
        proof {
            lemma_binomial_absorption(m, i as nat);
            lemma_binomial_diagonal(n as nat, k as nat, (i + 1) as nat);
            let c1 = binomial(m + 1, (i + 1) as nat);
            assert((i + 1) * c1 <= u32::MAX * u32::MAX) by (nonlinear_arith)
                requires
                    i + 1 <= u32::MAX,
                    c1 <= u32::MAX,
            ;
            assert(coefficient * (n - k + i + 1) == (m + 1) * binomial(m, i as nat)) by (nonlinear_arith)
                requires
                    coefficient == binomial(m, i as nat),
                    m + 1 == n - k + i + 1,
            ;
        }
        coefficient = coefficient * (n - k + i + 1);
        proof {
            assert(coefficient == (i + 1) * binomial(m + 1, (i + 1) as nat));
            vstd::arithmetic::div_mod::lemma_div_multiples_vanish(
                binomial(m + 1, (i + 1) as nat) as int,
                (i + 1) as int,
            );
        }
        coefficient = coefficient / (i + 1);
        i = i + 1;
    }
    coefficient as u32
}

/// `C(35 - lo, r) + ... + C(35 - (hi - 1), r)`: the hands whose card at
/// some position lies in `lo..hi`, with `r` cards left to choose above it.
pub open spec fn smaller_hands(lo: int, hi: int, r: nat) -> nat
    decreases hi - lo,
{
    if lo >= hi {
        0
    } else {
        smaller_hands(lo, hi - 1, r) + binomial((NUM_NORMAL - 1 - (hi - 1)) as nat, r)
    }
}

/// The number of sorted hands that come before `hand` when hands are
/// compared card by card, counted over its first `i` cards.
pub open spec fn hand_rank_prefix(hand: Seq<usize>, i: int) -> nat
    decreases i,
{
    if i <= 0 {
        0
    } else {
        let lo = if i == 1 {
            0
        } else {
            hand[i - 2] + 1
        };
        hand_rank_prefix(hand, i - 1) + smaller_hands(
            lo,
            hand[i - 1] as int,
            (INIT_HAND_SIZE_WO_WILDCARD - i) as nat,
        )
    }
}

/// A hand's place in the list of all sorted initial hands (14 normal
/// cards out of 36) in lexicographic order.
pub open spec fn hand_rank(hand: Seq<usize>) -> nat {
    hand_rank_prefix(hand, hand.len() as int)
}

/// A sorted initial hand: `INIT_HAND_SIZE_WO_WILDCARD` increasing normal
/// card ids.
pub open spec fn is_sorted_hand(hand: Seq<usize>) -> bool {
    &&& hand.len() == INIT_HAND_SIZE_WO_WILDCARD
    &&& forall|i: int, j: int| 0 <= i < j < hand.len() ==> hand[i] < hand[j]
    &&& forall|i: int| 0 <= i < hand.len() ==> #[trigger] hand[i] < NUM_NORMAL
}

proof fn lemma_sorted_hand_room(hand: Seq<usize>, i: int, j: int)
    requires
        is_sorted_hand(hand),
        0 <= i <= j < hand.len(),
    ensures
        hand[i] + (j - i) <= hand[j],
    decreases j - i,
{
    if i < j {
        lemma_sorted_hand_room(hand, i, j - 1);
    }
}

/// Where the choice for position `i` of a sorted hand starts.
pub open spec fn lowest_choice(hand: Seq<usize>, i: int) -> int {
    if i == 0 {
        0
    } else {
        hand[i - 1] + 1
    }
}

/// The part of the rank that positions `i..` contribute.
pub open spec fn rank_tail(hand: Seq<usize>, i: int) -> nat
    decreases hand.len() - i,
{
    if i < 0 || i >= hand.len() {
        0
    } else {
        smaller_hands(lowest_choice(hand, i), hand[i] as int, (INIT_HAND_SIZE_WO_WILDCARD - 1 - i) as nat)
            + rank_tail(hand, i + 1)
    }
}

proof fn lemma_rank_split(hand: Seq<usize>, i: int)
    requires
        is_sorted_hand(hand),
        0 <= i <= hand.len(),
    ensures
        hand_rank_prefix(hand, i) + rank_tail(hand, i) == hand_rank(hand),
    decreases hand.len() - i,
{
    if i < hand.len() {
        lemma_rank_split(hand, i + 1);
    }
}

/// Choices from `lo` up to `hi` and the hands from `hi` on make up the
/// hands from `lo` on.
proof fn lemma_smaller_hands_telescope(lo: int, hi: int, r: nat)
    requires
        0 <= lo <= hi <= NUM_NORMAL,
    ensures
        smaller_hands(lo, hi, r) + binomial((NUM_NORMAL - hi) as nat, r + 1) == binomial(
            (NUM_NORMAL - lo) as nat,
            r + 1,
        ),
    decreases hi - lo,
{
    if lo < hi {
        lemma_smaller_hands_telescope(lo, hi - 1, r);
        assert(binomial((NUM_NORMAL - (hi - 1)) as nat, r + 1) == binomial((NUM_NORMAL - hi) as nat, r)
            + binomial((NUM_NORMAL - hi) as nat, r + 1));
    }
}

proof fn lemma_smaller_hands_grow(lo: int, hi: int, hi2: int, r: nat)
    requires
        lo <= hi <= hi2,
    ensures
        smaller_hands(lo, hi, r) <= smaller_hands(lo, hi2, r),
    decreases hi2 - hi,
{
    if hi < hi2 {
        lemma_smaller_hands_grow(lo, hi, hi2 - 1, r);
    }
}

/// The hands that continue a hand from position `i` on outnumber what
/// those positions add to its rank.
proof fn lemma_rank_tail_bound(hand: Seq<usize>, i: int)
    requires
        is_sorted_hand(hand),
        0 <= i <= hand.len(),
    ensures
        rank_tail(hand, i) < binomial(
            (NUM_NORMAL - lowest_choice(hand, i)) as nat,
            (INIT_HAND_SIZE_WO_WILDCARD - i) as nat,
        ),
    decreases hand.len() - i,
{
    if i == hand.len() {
        assert(binomial((NUM_NORMAL - lowest_choice(hand, i)) as nat, 0) == 1);
    } else {
        lemma_rank_tail_bound(hand, i + 1);
        let lo = lowest_choice(hand, i);
        let x = hand[i] as int;
        let r = (INIT_HAND_SIZE_WO_WILDCARD - 1 - i) as nat;
        if i > 0 {
            assert(hand[i - 1] < hand[i]);
        }
        lemma_sorted_hand_room(hand, i, 13);
        assert(hand[13] < NUM_NORMAL);
        lemma_smaller_hands_telescope(lo, x, r);
        assert(binomial((NUM_NORMAL - x) as nat, r + 1) == binomial((NUM_NORMAL - x - 1) as nat, r)
            + binomial((NUM_NORMAL - x - 1) as nat, r + 1));
        assert(lowest_choice(hand, i + 1) == x + 1);
    }
}

proof fn lemma_same_prefix(h1: Seq<usize>, h2: Seq<usize>, i: int)
    requires
        0 <= i <= h1.len(),
        i <= h2.len(),
        forall|j: int| 0 <= j < i ==> h1[j] == h2[j],
    ensures
        hand_rank_prefix(h1, i) == hand_rank_prefix(h2, i),
    decreases i,
{
    if i > 0 {
        lemma_same_prefix(h1, h2, i - 1);
    }
}

/// A hand whose first difference from another is a lower card comes first.
proof fn lemma_rank_order(h1: Seq<usize>, h2: Seq<usize>, i: int)
    requires
        is_sorted_hand(h1),
        is_sorted_hand(h2),
        0 <= i < h1.len(),
        forall|j: int| 0 <= j < i ==> h1[j] == h2[j],
        h1[i] < h2[i],
    ensures
        hand_rank(h1) < hand_rank(h2),
{
    lemma_same_prefix(h1, h2, i);
    lemma_rank_split(h1, i);
    lemma_rank_split(h2, i);
    lemma_rank_tail_bound(h1, i + 1);
    let lo = lowest_choice(h1, i);
    assert(lo == lowest_choice(h2, i));
    let r = (INIT_HAND_SIZE_WO_WILDCARD - 1 - i) as nat;
    let x = h1[i] as int;
    assert(lowest_choice(h1, i + 1) == x + 1);
    if i > 0 {
        assert(h1[i - 1] < h1[i]);
    }
    assert(smaller_hands(lo, x + 1, r) == smaller_hands(lo, x, r) + binomial((NUM_NORMAL - 1 - x) as nat, r));
    lemma_smaller_hands_grow(lo, x + 1, h2[i] as int, r);
}

proof fn lemma_injective_from(h1: Seq<usize>, h2: Seq<usize>, i: int)
    requires
        is_sorted_hand(h1),
        is_sorted_hand(h2),
        hand_rank(h1) == hand_rank(h2),
        0 <= i <= h1.len(),
        forall|j: int| 0 <= j < i ==> h1[j] == h2[j],
    ensures
        h1 == h2,
    decreases h1.len() - i,
{
    if i == h1.len() {
        assert(h1 =~= h2);
    } else if h1[i] == h2[i] {
        lemma_injective_from(h1, h2, i + 1);
    } else if h1[i] < h2[i] {
        lemma_rank_order(h1, h2, i);
    } else {
        lemma_rank_order(h2, h1, i);
    }
}

/// Distinct sorted initial hands have distinct ranks: a hand can be read
/// back from its rank.
pub proof fn lemma_hand_rank_injective(h1: Seq<usize>, h2: Seq<usize>)
    requires
        is_sorted_hand(h1),
        is_sorted_hand(h2),
        hand_rank(h1) == hand_rank(h2),
    ensures
        h1 == h2,
{
    lemma_injective_from(h1, h2, 0);
}

/// Maps a sorted initial hand to its rank among all initial hands, a
/// number below `C(36, 14)`, so that 32 bits hold it.
pub fn compress_hand(hand: &[usize]) -> (r: u32)
    requires
        is_sorted_hand(hand@),
    ensures
        r == hand_rank(hand@),
        r < binomial(NUM_NORMAL as nat, INIT_HAND_SIZE_WO_WILDCARD as nat),
{
    let ghost h = hand@;
    let ghost total = binomial(36, 14);
    proof {
        lemma_initial_hands();
    }
    let mut num_smaller_hands: u32 = 0;
    let mut smallest_possibility: usize = 0;
    let mut i: usize = 0;
    while i < hand.len()
        invariant
            h == hand@,
            is_sorted_hand(h),
            total == 3796297200,
            i <= hand.len(),
            i == 0 ==> smallest_possibility == 0,
            i > 0 ==> smallest_possibility == h[i - 1] + 1,
            i < hand.len() ==> smallest_possibility <= h[i as int],
            smallest_possibility <= NUM_NORMAL,
            num_smaller_hands == hand_rank_prefix(h, i as int),
            num_smaller_hands + binomial(
                (NUM_NORMAL - smallest_possibility) as nat,
                (INIT_HAND_SIZE_WO_WILDCARD - i) as nat,
            ) <= total,
        decreases hand.len() - i,
    {
        let card = hand[i];
        let num_remaining_cards = INIT_HAND_SIZE_WO_WILDCARD - i - 1;
        let ghost r = num_remaining_cards as nat;
        proof {
            lemma_sorted_hand_room(h, i as int, 13);
            assert(h[13] < NUM_NORMAL);
        }
        let ghost base = num_smaller_hands;
        let mut smaller_card = smallest_possibility;
        while smaller_card < card
            invariant
                h == hand@,
                is_sorted_hand(h),
                total == 3796297200,
                i < hand.len(),
                card == h[i as int],
                card + (13 - i) <= h[13],
                r == 13 - i,
                num_remaining_cards == r,
                base == hand_rank_prefix(h, i as int),
                smallest_possibility <= smaller_card <= card,
                num_smaller_hands == base + smaller_hands(
                    smallest_possibility as int,
                    smaller_card as int,
                    r,
                ),
                num_smaller_hands + binomial((NUM_NORMAL - smaller_card) as nat, r + 1) <= total,
            decreases card - smaller_card,
        {
            let num_possible_cards = NUM_NORMAL - 1 - smaller_card;
            proof {
                // C(36 - s, r + 1) == C(35 - s, r) + C(35 - s, r + 1)
                assert(binomial((NUM_NORMAL - smaller_card) as nat, r + 1) == binomial(
                    num_possible_cards as nat,
                    r,
                ) + binomial(num_possible_cards as nat, r + 1));
            }
            let c = n_choose_k(num_possible_cards, num_remaining_cards);
            num_smaller_hands = num_smaller_hands + c;
            smaller_card = smaller_card + 1;
        }
        proof {
            assert(binomial((NUM_NORMAL - card) as nat, r + 1) == binomial(
                (NUM_NORMAL - card - 1) as nat,
                r,
            ) + binomial((NUM_NORMAL - card - 1) as nat, r + 1));
            if i + 1 < hand.len() {
                assert(h[i as int] < h[i + 1]);
            }
        }
        smallest_possibility = card + 1;
        i = i + 1;
    }
    num_smaller_hands
}

// ---------------------------------------------------------------------
// The grouping bitmap: two bits per card on the table.
// ---------------------------------------------------------------------

/// Bytes of the grouping bitmap.
pub const GROUPING_ARRAY_BYTE_LEN: usize = (2 * CARD_ORDER_LEN + 7) / 8;

/// Bytes of an encoded game.
pub const ENCODED_GAME_LEN: usize = CARD_ORDER_BYTE_LEN + 2 + GROUPING_ARRAY_BYTE_LEN + 1;

/// Bit `b` of `g`.
pub open spec fn has_bit(g: u128, b: u128) -> bool {
    (g >> b) & 1 == 1
}

/// Sets bit `bit` (0: last card of its combination, 1: last card of its
/// combination group) of the table card with index `grouping_array_idx`.
pub fn set_1_for_grouping_array(grouping_array: &mut u128, grouping_array_idx: usize, bit: usize)
    requires
        bit < 2,
        grouping_array_idx < 64,
    ensures
        *final(grouping_array) == *old(grouping_array) | (1u128 << ((2 * grouping_array_idx + bit) as u128)),
{
    let bit_idx = (2 * grouping_array_idx + bit) as u128;
    *grouping_array = *grouping_array | 1u128 << bit_idx;
}

/// Reads bit `bit` of the table card with index `grouping_array_idx`.
pub fn read_bit_from_grouping_array(grouping_array: &u128, grouping_array_idx: usize, bit: usize) -> (r: bool)
    requires
        bit < 2,
        grouping_array_idx < 64,
    ensures
        r == has_bit(*grouping_array, (2 * grouping_array_idx + bit) as u128),
{
    let bit_idx = (2 * grouping_array_idx + bit) as u128;
    let g = *grouping_array;
    assert((g & (1u128 << bit_idx)) > 0 <==> (g >> bit_idx) & 1 == 1) by (bit_vector)
        requires
            bit_idx < 128,
    ;
    (g & 1u128 << bit_idx) > 0
}

/// `256^16 == 2^128`.
proof fn lemma_pow256_16()
    ensures
        vstd::arithmetic::power::pow(256, 16) == 0x1_0000_0000_0000_0000_0000_0000_0000_0000,
{
    reveal(vstd::arithmetic::power::pow);
    assert(vstd::arithmetic::power::pow(256, 0) == 1);
    assert(vstd::arithmetic::power::pow(256, 1) == 256);
    assert(vstd::arithmetic::power::pow(256, 2) == 65536);
    assert(vstd::arithmetic::power::pow(256, 3) == 16777216);
    assert(vstd::arithmetic::power::pow(256, 4) == 4294967296);
    assert(vstd::arithmetic::power::pow(256, 5) == 1099511627776);
    assert(vstd::arithmetic::power::pow(256, 6) == 281474976710656);
    assert(vstd::arithmetic::power::pow(256, 7) == 72057594037927936);
    assert(vstd::arithmetic::power::pow(256, 8) == 18446744073709551616);
    assert(vstd::arithmetic::power::pow(256, 9) == 4722366482869645213696);
    assert(vstd::arithmetic::power::pow(256, 10) == 1208925819614629174706176);
    assert(vstd::arithmetic::power::pow(256, 11) == 309485009821345068724781056);
    assert(vstd::arithmetic::power::pow(256, 12) == 79228162514264337593543950336);
    assert(vstd::arithmetic::power::pow(256, 13) == 20282409603651670423947251286016);
    assert(vstd::arithmetic::power::pow(256, 14) == 5192296858534827628530496329220096);
    assert(vstd::arithmetic::power::pow(256, 15) == 1329227995784915872903807060280344576);
    assert(vstd::arithmetic::power::pow(256, 16) == 340282366920938463463374607431768211456);
}

/// The number that big-endian bytes stand for, when it fits in 128 bits.
fn u128_from_be(bytes: &[u8]) -> (r: u128)
    requires
        bytes.len() <= 16,
    ensures
        r == be_value(bytes@),
{
    let mut acc: u128 = 0;
    let mut i: usize = 0;
    proof {
        vstd::arithmetic::power::lemma_pow0(256);
        lemma_pow256_16();
    }
    while i < bytes.len()
        invariant
            i <= bytes.len() <= 16,
            acc == be_value(bytes@.take(i as int)),
            acc < vstd::arithmetic::power::pow(256, i as nat),
        decreases bytes.len() - i,
    {
        assert(bytes@.take(i + 1).drop_last() =~= bytes@.take(i as int));
        proof {
            vstd::arithmetic::power::lemma_pow_adds(256, i as nat, 1);
            vstd::arithmetic::power::lemma_pow1(256);
            vstd::arithmetic::power::lemma_pow_increases(256, (i + 1) as nat, 16);
            lemma_pow256_16();
            let p = vstd::arithmetic::power::pow(256, i as nat);
            assert(acc * 256 + bytes@[i as int] < p * 256) by (nonlinear_arith)
                requires
                    acc < p,
                    bytes@[i as int] < 256,
            ;
        }
        acc = acc * 256 + bytes[i] as u128;
        i = i + 1;
    }
    assert(bytes@.take(bytes.len() as int) =~= bytes@);
    acc
}

proof fn lemma_shift_byte(x: u128, s: u128)
    requires
        s + 8 <= 128,
    ensures
        (x >> (s + 8)) * 256 + ((x >> s) & 0xff) == x >> s,
        (x >> (s + 8)) < 0x1_0000_0000_0000_0000_0000_0000_0000_00,
{
    assert((x >> (s + 8)) < 0x1_0000_0000_0000_0000_0000_0000_0000_00) by (bit_vector)
        requires
            s + 8 <= 128,
    ;
    assert(((x >> (s + 8)) << 8) + ((x >> s) & 0xff) == x >> s) by (bit_vector)
        requires
            s + 8 <= 128,
    ;
    assert((x >> (s + 8)) << 8 == (x >> (s + 8)) * 256) by (bit_vector)
        requires
            s + 8 <= 128,
    ;
}

/// The low `width` bytes of `g`, big-endian: all of `g` when it fits.
fn u128_to_be(g: u128, width: usize) -> (r: Vec<u8>)
    requires
        1 <= width <= 15,
        g >> ((8 * width) as u128) == 0,
    ensures
        r.len() == width,
        be_value(r@) == g,
{
    let mut r: Vec<u8> = Vec::new();
    let mut k: usize = 0;
    assert(be_value(r@) == 0);
    while k < width
        invariant
            k <= width <= 15,
            r.len() == k,
            be_value(r@) == g >> ((8 * (width - k)) as u128),
        decreases width - k,
    {
        let shift = (8 * (width - 1 - k)) as u128;
        let byte = ((g >> shift) & 0xff) as u8;
        proof {
            lemma_shift_byte(g, shift);
            assert(shift + 8 == (8 * (width - k)) as u128);
            assert((g >> shift) & 0xff < 256) by (bit_vector);
        }
        let ghost before = r@;
        r.push(byte);
        assert(r@.drop_last() =~= before);
        k = k + 1;
    }
    assert(g >> 0u128 == g) by (bit_vector);
    r
}

// ---------------------------------------------------------------------
// The whole game in 32 bytes.
// ---------------------------------------------------------------------

/// Why bytes were not read as a game.
#[derive(Debug, Clone, Copy, PartialEq, Eq)]
pub enum DecodeError {
    /// Fewer than `ENCODED_GAME_LEN` bytes.
    TooShort,
    /// The card order field stands for no order of the cards.
    CardOrderOutOfRange,
    /// A hand larger than a player can hold, or both hands empty.
    BadHandSize,
    /// The table cards do not replay as legal plays.
    IllegalReplay,
}

/// Where a card comes in an encoded game: my hand (0), the opponent's
/// hand (1), then the combinations in play order (`2 + order`); the Haggis
/// is left out (-1).
pub open spec fn location_key(l: Location) -> int {
    match l {
        Location::Haggis => -1,
        Location::Hand(Player::Me) => 0,
        Location::Hand(Player::Opponent) => 1,
        Location::Table { order, .. } => order + 2,
    }
}

/// The ids, in increasing order, of the first `n` cards with key `key`.
pub open spec fn ids_with_key(locs: Seq<Location>, key: int, n: int) -> Seq<usize>
    decreases n,
{
    if n <= 0 {
        seq![]
    } else if location_key(locs[n - 1]) == key {
        ids_with_key(locs, key, n - 1).push((n - 1) as usize)
    } else {
        ids_with_key(locs, key, n - 1)
    }
}

/// The cards with keys `key..next_order + 2`, by key, then by id.
pub open spec fn ids_from_key(g: GameView, key: int) -> Seq<usize>
    decreases g.next_order + 2 - key,
{
    if key < 0 || key >= g.next_order + 2 {
        seq![]
    } else {
        ids_with_key(g.locations, key, DECK_SIZE as int) + ids_from_key(g, key + 1)
    }
}

/// The order in which an encoded game lists its cards: my hand, the
/// opponent's hand, then the table in play order, each part by card id.
pub open spec fn card_order_of(g: GameView) -> Seq<usize> {
    ids_from_key(g, 0)
}

pub proof fn lemma_ids_with_key_count(locs: Seq<Location>, p: Player, n: int)
    requires
        0 <= n <= locs.len(),
    ensures
        ids_with_key(locs, if p == Player::Me { 0 } else { 1 }, n).len() == count_where(
            locs.take(n),
            hand_of(p),
        ),
    decreases n,
{
    if n > 0 {
        lemma_ids_with_key_count(locs, p, n - 1);
        assert(locs.take(n).drop_last() =~= locs.take(n - 1));
    }
    assert(locs.take(n).len() == n);
}

/// The ids of the cards with key `key`.
fn collect_ids(locations: &Vec<Location>, hand: Option<Player>, order: usize) -> (r: Vec<usize>)
    requires
        locations.len() == DECK_SIZE,
    ensures
        r@ == ids_with_key(
            locations@,
            match hand {
                Some(Player::Me) => 0,
                Some(Player::Opponent) => 1,
                None => order + 2,
            },
            DECK_SIZE as int,
        ),
        forall|k: int| 0 <= k < r.len() ==> #[trigger] r@[k] < DECK_SIZE,
        forall|k: int| 0 <= k < r.len() ==> location_key(locations@[#[trigger] r@[k] as int]) == match hand {
            Some(Player::Me) => 0,
            Some(Player::Opponent) => 1,
            None => order + 2,
        },
        forall|k: int, m: int| 0 <= k < m < r.len() ==> r@[k] < r@[m],
{
    let ghost key: int = match hand {
        Some(Player::Me) => 0,
        Some(Player::Opponent) => 1,
        None => order + 2,
    };
    let mut r: Vec<usize> = Vec::new();
    let mut c: usize = 0;
    while c < DECK_SIZE
        invariant
            c <= DECK_SIZE,
            locations.len() == DECK_SIZE,
            r@ == ids_with_key(locations@, key, c as int),
            key == match hand {
                Some(Player::Me) => 0,
                Some(Player::Opponent) => 1,
                None => order + 2,
            },
            forall|k: int| 0 <= k < r.len() ==> #[trigger] r@[k] < c,
            forall|k: int| 0 <= k < r.len() ==> location_key(locations@[#[trigger] r@[k] as int]) == key,
            forall|k: int, m: int| 0 <= k < m < r.len() ==> r@[k] < r@[m],
        decreases DECK_SIZE - c,
    {
        let matches = match locations[c] {
            Location::Hand(q) => match hand {
                Some(p) => p == q,
                None => false,
            },
            Location::Table { order: o, .. } => match hand {
                Some(_) => false,
                None => o == order,
            },
            Location::Haggis => false,
        };
        proof {
            match locations@[c as int] {
                Location::Hand(q) => {
                    assert(location_key(locations@[c as int]) == if q == Player::Me { 0int } else { 1int });
                },
                Location::Table { order: o, .. } => {
                    assert(location_key(locations@[c as int]) == o + 2);
                },
                Location::Haggis => {},
            }
        }
        assert(matches == (location_key(locations@[c as int]) == key));
        if matches {
            r.push(c);
        }
        c = c + 1;
    }
    r
}

/// Where a card lies before the table is replayed: the first `my_size`
/// cards of `order` in my hand, the next ones up to `hand_cards` in the
/// opponent's, the cards that `order` does not reach in the Haggis.
pub open spec fn start_location(order: Seq<usize>, my_size: int, hand_cards: int, c: int) -> Location {
    if exists|k: int| 0 <= k < my_size && order[k] == c {
        Location::Hand(Player::Me)
    } else if exists|k: int| my_size <= k < hand_cards && order[k] == c {
        Location::Hand(Player::Opponent)
    } else if exists|k: int| hand_cards <= k < order.len() && order[k] == c {
        Location::Table { captured_by: None, order: 0, in_last_combination_before_pass: false }
    } else {
        Location::Haggis
    }
}

/// The game before its table is replayed.
pub open spec fn start_view(order: Seq<usize>, my_size: int, hand_cards: int, me_went_first: bool) -> GameView {
    GameView {
        locations: Seq::new(
            DECK_SIZE as nat,
            |c: int| {
                let l = start_location(order, my_size, hand_cards, c);
                if l is Table {
                    Location::Haggis
                } else {
                    l
                }
            },
        ),
        current_player: if me_went_first {
            Player::Me
        } else {
            Player::Opponent
        },
        me_went_first,
        last_combination_type: None,
        next_order: 0,
    }
}

/// One card of the table replayed on `g`, `comb` being the cards of the
/// current combination up to it: if it ends the combination, the
/// combination is played; if it ends the group, a pass follows. Gives the
/// game and the cards of the combination still open, or `None` if a play is
/// illegal.
pub open spec fn replay_step(g: GameView, comb: Seq<usize>, ends_combination: bool, ends_group: bool) -> Option<(GameView, Seq<usize>)> {
    if ends_combination && !g.can_play(comb) {
        None
    } else {
        let g1 = if ends_combination {
            g.play(comb)
        } else {
            g
        };
        let rest = if ends_combination {
            seq![]
        } else {
            comb
        };
        if ends_group {
            if g1.can_play(seq![]) {
                Some((g1.play(seq![]), rest))
            } else {
                None
            }
        } else {
            Some((g1, rest))
        }
    }
}

/// Replays the table cards `cards[idx..]` on `g`, `pending` being the
/// cards of the combination begun before them: bit 0 of a card ends a
/// combination, bit 1 ends a group.
pub open spec fn replay(g: GameView, cards: Seq<usize>, bitmap: u128, idx: int, pending: Seq<
    usize,
>) -> Option<GameView>
    decreases cards.len() - idx,
{
    if idx >= cards.len() || idx < 0 {
        Some(g)
    } else {
        match replay_step(
            g,
            pending.push(cards[idx]),
            has_bit(bitmap, (2 * idx) as u128),
            has_bit(bitmap, (2 * idx + 1) as u128),
        ) {
            None => None,
            Some((g2, rest)) => replay(g2, cards, bitmap, idx + 1, rest),
        }
    }
}

/// Replays one table card; `false` if a play is illegal.
fn replay_card(
    game: &mut Game,
    combination: &mut Vec<usize>,
    card_id: usize,
    ends_combination: bool,
    ends_group: bool,
) -> (ok: bool)
    requires
        old(game)@.wf(),
        old(game).next_order < usize::MAX - 1,
        card_id < DECK_SIZE,
        old(combination).len() < DECK_SIZE,
        forall|j: int| 0 <= j < old(combination).len() ==> #[trigger] old(combination)@[j] < DECK_SIZE,
    ensures
        ok <==> replay_step(old(game)@, old(combination)@.push(card_id), ends_combination, ends_group) is Some,
        ok ==> replay_step(old(game)@, old(combination)@.push(card_id), ends_combination, ends_group) == Some((final(game)@, final(combination)@)),
        final(game)@.wf(),
        final(game).next_order <= old(game).next_order + 1,
        final(combination).len() <= old(combination).len() + 1,
        forall|j: int| 0 <= j < final(combination).len() ==> #[trigger] final(combination)@[j] < DECK_SIZE,
{
    combination.push(card_id);
    if ends_combination {
        if game.play_cards(combination.as_slice()).is_err() {
            return false;
        }
        *combination = Vec::new();
    }
    if ends_group {
        let pass: Vec<usize> = Vec::new();
        assert(pass@ =~= Seq::<usize>::empty());
        if game.play_cards(pass.as_slice()).is_err() {
            return false;
        }
    }
    true
}

/// What the bytes `b` decode to.
pub open spec fn decode_spec(b: Seq<u8>) -> Result<GameView, DecodeError> {
    if b.len() < ENCODED_GAME_LEN {
        Err(DecodeError::TooShort)
    } else {
        match unrank_order(be_value(b.subrange(0, CARD_ORDER_BYTE_LEN as int))) {
            None => Err(DecodeError::CardOrderOutOfRange),
            Some(order) => {
                let my_size = b[CARD_ORDER_BYTE_LEN as int] as int;
                let opponent_size = b[CARD_ORDER_BYTE_LEN + 1] as int;
                let hand_cards = my_size + opponent_size;
                if my_size > MAX_HAND_SIZE || opponent_size > MAX_HAND_SIZE || hand_cards == 0 {
                    Err(DecodeError::BadHandSize)
                } else {
                    let bitmap = be_value(
                        b.subrange(
                            CARD_ORDER_BYTE_LEN + 2,
                            CARD_ORDER_BYTE_LEN + 2 + GROUPING_ARRAY_BYTE_LEN,
                        ),
                    ) as u128;
                    let me_went_first = b[ENCODED_GAME_LEN - 1] != 0;
                    match replay(
                        start_view(order, my_size, hand_cards, me_went_first),
                        order.subrange(hand_cards, CARD_ORDER_LEN as int),
                        bitmap,
                        0,
                        seq![],
                    ) {
                        Some(g) => Ok(g),
                        None => Err(DecodeError::IllegalReplay),
                    }
                }
            }
        }
    }
}

/// Places the hands that an encoded game lists.
fn place_hands(order: &Vec<usize>, my_size: usize, hand_cards: usize) -> (r: Vec<Location>)
    requires
        is_order_prefix(order@),
        order.len() == CARD_ORDER_LEN,
        my_size <= hand_cards <= CARD_ORDER_LEN,
    ensures
        r.len() == DECK_SIZE,
        forall|c: int|
            0 <= c < DECK_SIZE ==> #[trigger] r@[c] == start_view(order@, my_size as int, hand_cards as int, true).locations[c],
{
    let ghost o = order@;
    let mut locations: Vec<Location> = Vec::new();
    let mut c: usize = 0;
    while c < DECK_SIZE
        invariant
            c <= DECK_SIZE,
            locations@.len() == c,
            forall|d: int| 0 <= d < c ==> #[trigger] locations@[d] == Location::Haggis,
        decreases DECK_SIZE - c,
    {
        locations.push(Location::Haggis);
        c = c + 1;
    }
    let mut k: usize = 0;
    while k < hand_cards
        invariant
            k <= hand_cards <= CARD_ORDER_LEN,
            my_size <= hand_cards,
            o == order@,
            is_order_prefix(o),
            o.len() == CARD_ORDER_LEN,
            locations.len() == DECK_SIZE,
            forall|c: int|
                0 <= c < DECK_SIZE && (exists|j: int| 0 <= j < k && j < my_size && o[j] == c) ==> #[trigger] locations@[c] == Location::Hand(Player::Me),
            forall|c: int|
                0 <= c < DECK_SIZE && (exists|j: int| my_size <= j < k && o[j] == c) ==> #[trigger] locations@[c] == Location::Hand(Player::Opponent),
            forall|c: int|
                0 <= c < DECK_SIZE && !(exists|j: int| 0 <= j < k && o[j] == c) ==> #[trigger] locations@[c] == Location::Haggis,
        decreases hand_cards - k,
    {
        let id = order[k];
        let owner = if k < my_size {
            Player::Me
        } else {
            Player::Opponent
        };
        locations.set(id, Location::Hand(owner));
        assert forall|j: int| 0 <= j < k implies #[trigger] o[j] != id by {
            assert(o[k as int] == id);
        }
        k = k + 1;
    }
    proof {
        assert forall|c: int| 0 <= c < DECK_SIZE implies #[trigger] locations@[c] == start_view(o, my_size as int, hand_cards as int, true).locations[c] by {
            let l = start_location(o, my_size as int, hand_cards as int, c);
            if exists|j: int| 0 <= j < hand_cards && o[j] == c {
                let j = choose|j: int| 0 <= j < hand_cards && o[j] == c;
                assert forall|j2: int| 0 <= j2 < o.len() && o[j2] == c implies j2 == j by {}
            } else {
                assert forall|j2: int| 0 <= j2 < my_size implies o[j2] != c by {}
                assert forall|j2: int| my_size <= j2 < hand_cards implies o[j2] != c by {}
            }
        }
    }
    locations
}

/// Reads an encoded game. The game is rebuilt by replaying the table cards
/// through the rules, so bytes that describe illegal plays are refused.
pub fn decode_game(compressed_game: &[u8]) -> (r: Result<Game, DecodeError>)
    ensures
        r matches Ok(g) ==> decode_spec(compressed_game@) == Ok::<GameView, DecodeError>(g@) && g@.wf(),
        r matches Err(e) ==> decode_spec(compressed_game@) == Err::<GameView, DecodeError>(e),
{
    let ghost b = compressed_game@;
    if compressed_game.len() < ENCODED_GAME_LEN {
        return Err(DecodeError::TooShort);
    }
    let mut card_order_bytes: Vec<u8> = Vec::new();
    let mut k: usize = 0;
    while k < CARD_ORDER_BYTE_LEN
        invariant
            k <= CARD_ORDER_BYTE_LEN,
            b == compressed_game@,
            b.len() >= ENCODED_GAME_LEN,
            card_order_bytes@ == b.subrange(0, k as int),
        decreases CARD_ORDER_BYTE_LEN - k,
    {
        card_order_bytes.push(compressed_game[k]);
        assert(card_order_bytes@ =~= b.subrange(0, k + 1));
        k = k + 1;
    }
    let card_order = match decompress_card_order(&card_order_bytes) {
        Some(o) => o,
        None => {
            return Err(DecodeError::CardOrderOutOfRange);
        },
    };
    let my_hand_size = compressed_game[CARD_ORDER_BYTE_LEN] as usize;
    let opponent_hand_size = compressed_game[CARD_ORDER_BYTE_LEN + 1] as usize;
    if my_hand_size > MAX_HAND_SIZE || opponent_hand_size > MAX_HAND_SIZE || my_hand_size
        + opponent_hand_size == 0 {
        return Err(DecodeError::BadHandSize);
    }
    let net_hand_size = my_hand_size + opponent_hand_size;
    let grouping_array = u128_from_be(
        slice_subrange(compressed_game, CARD_ORDER_BYTE_LEN + 2, CARD_ORDER_BYTE_LEN + 2 + GROUPING_ARRAY_BYTE_LEN),
    );
    let me_went_first = compressed_game[ENCODED_GAME_LEN - 1] != 0;
    let ghost order = card_order@;
    let ghost start = start_view(order, my_hand_size as int, net_hand_size as int, me_went_first);
    let locations = place_hands(&card_order, my_hand_size, net_hand_size);
    let mut game = Game {
        locations,
        current_player: if me_went_first {
            Player::Me
        } else {
            Player::Opponent
        },
        me_went_first,
        last_combination_type: None,
        next_order: 0,
    };
    assert(game@.locations =~= start.locations);
    assert(game@ == start);
    let num_cards_on_table = CARD_ORDER_LEN - net_hand_size;
    let ghost cards = order.subrange(net_hand_size as int, CARD_ORDER_LEN as int);
    let ghost total = replay(start, cards, grouping_array, 0, seq![]);
    assert(decode_spec(b) == match total {
        Some(g) => Ok::<GameView, DecodeError>(g),
        None => Err(DecodeError::IllegalReplay),
    });
    let mut combination: Vec<usize> = Vec::new();
    let mut idx: usize = 0;
    while idx < num_cards_on_table
        invariant
            idx <= num_cards_on_table == CARD_ORDER_LEN - net_hand_size,
            net_hand_size <= CARD_ORDER_LEN,
            card_order@ == order,
            card_order.len() == CARD_ORDER_LEN,
            is_order_prefix(order),
            cards == order.subrange(net_hand_size as int, CARD_ORDER_LEN as int),
            game@.wf(),
            game.next_order <= idx,
            combination.len() <= idx,
            forall|j: int| 0 <= j < combination.len() ==> #[trigger] combination@[j] < DECK_SIZE,
            total == replay(game@, cards, grouping_array, idx as int, combination@),
            b == compressed_game@,
            decode_spec(b) == match total {
                Some(g) => Ok::<GameView, DecodeError>(g),
                None => Err(DecodeError::IllegalReplay),
            },
        decreases num_cards_on_table - idx,
    {
        let card_id = card_order[net_hand_size + idx];
        assert(cards[idx as int] == card_id);
        assert(cards.len() == num_cards_on_table);
        let ghost g0 = game@;
        let ghost c0 = combination@;
        let is_last_card_of_combination = read_bit_from_grouping_array(&grouping_array, idx, 0);
        let is_last_card_of_combination_group = read_bit_from_grouping_array(&grouping_array, idx, 1);
        if !replay_card(
            &mut game,
            &mut combination,
            card_id,
            is_last_card_of_combination,
            is_last_card_of_combination_group,
        ) {
            assert(replay(g0, cards, grouping_array, idx as int, c0) == None::<GameView>);
            return Err(DecodeError::IllegalReplay);
        }
        idx = idx + 1;
    }
    Ok(game)
}

/// The bytes `s[from..to]`.
fn slice_subrange(s: &[u8], from: usize, to: usize) -> (r: &[u8])
    requires
        from <= to <= s.len(),
    ensures
        r@ == s@.subrange(from as int, to as int),
{
    vstd::slice::slice_subrange(s, from, to)
}

/// Encodes a game in `ENCODED_GAME_LEN` bytes: the order of the cards
/// outside the Haggis (`CARD_ORDER_BYTE_LEN` bytes), the two hand sizes,
/// the grouping bitmap and whether I went first.
pub fn encode_game(game: &Game) -> (r: Vec<u8>)
    requires
        game@.wf(),
        card_order_of(game@).len() == CARD_ORDER_LEN,
    ensures
        r.len() == ENCODED_GAME_LEN,
        be_value(r@.subrange(0, CARD_ORDER_BYTE_LEN as int)) == mixed_radix(
            order_digits(card_order_of(game@)),
            DECK_SIZE as nat,
        ),
        r@[CARD_ORDER_BYTE_LEN as int] == game@.hand_count(Player::Me),
        r@[CARD_ORDER_BYTE_LEN + 1] == game@.hand_count(Player::Opponent),
        be_value(r@.subrange(CARD_ORDER_BYTE_LEN + 2, ENCODED_GAME_LEN - 1)) == grouping_bitmap(game@),
        r@[ENCODED_GAME_LEN - 1] == (if game.me_went_first {
            1u8
        } else {
            0u8
        }),
{
    let ghost g = game@;
    let ghost full = card_order_of(g);
    let my_hand = collect_ids(&game.locations, Some(Player::Me), 0);
    let opponent_hand = collect_ids(&game.locations, Some(Player::Opponent), 0);
    proof {
        lemma_ids_with_key_count(g.locations, Player::Me, DECK_SIZE as int);
        lemma_ids_with_key_count(g.locations, Player::Opponent, DECK_SIZE as int);
        assert(g.locations.take(DECK_SIZE as int) =~= g.locations);
        assert(ids_from_key(g, 1) == opponent_hand@ + ids_from_key(g, 2));
        assert(ids_from_key(g, 0) == my_hand@ + ids_from_key(g, 1));
        assert(full =~= my_hand@ + (opponent_hand@ + ids_from_key(g, 2)));
    }
    let my_hand_size = my_hand.len();
    let opponent_hand_size = opponent_hand.len();
    assert(my_hand_size == g.hand_count(Player::Me));
    assert(opponent_hand_size == g.hand_count(Player::Opponent));
    assert(my_hand_size + opponent_hand_size <= CARD_ORDER_LEN);
    let mut card_order: Vec<usize> = Vec::new();
    let mut k: usize = 0;
    while k < my_hand_size
        invariant
            k <= my_hand_size == my_hand.len(),
            card_order@ == my_hand@.take(k as int),
        decreases my_hand_size - k,
    {
        card_order.push(my_hand[k]);
        assert(card_order@ =~= my_hand@.take(k + 1));
        k = k + 1;
    }
    assert(my_hand@.take(my_hand_size as int) =~= my_hand@);
    let mut k: usize = 0;
    while k < opponent_hand_size
        invariant
            k <= opponent_hand_size == opponent_hand.len(),
            card_order@ == my_hand@ + opponent_hand@.take(k as int),
        decreases opponent_hand_size - k,
    {
        card_order.push(opponent_hand[k]);
        assert(card_order@ =~= my_hand@ + opponent_hand@.take(k + 1));
        k = k + 1;
    }
    assert(opponent_hand@.take(opponent_hand_size as int) =~= opponent_hand@);
    proof {
        assert(card_order@ + ids_from_key(g, 2) =~= full);
        assert forall|a: int, b: int| 0 <= a < b < card_order.len() implies card_order@[a] != card_order@[b] by {
            if a < my_hand_size && b >= my_hand_size {
                let bb = b - my_hand_size;
                assert(card_order@[b] == opponent_hand@[bb]);
                assert(location_key(g.locations[opponent_hand@[bb] as int]) == 1);
            }
        }
        assert forall|a: int| 0 <= a < card_order.len() implies location_key(g.locations[#[trigger] card_order@[a] as int]) < 2 && card_order@[a] < DECK_SIZE by {
            if a >= my_hand_size {
                assert(card_order@[a] == opponent_hand@[a - my_hand_size]);
            }
        }
    }
    let net_hand_size = my_hand_size + opponent_hand_size;
    let mut grouping_array: u128 = 0;
    let mut last_captured = false;
    let mut order: usize = 0;
    while order < game.next_order
        invariant
            g == game@,
            grouping_bitmap(g) == grouping_from(g, order as int, card_order.len() - net_hand_size, grouping_array, last_captured),
            grouping_array < 0x1_0000_0000_0000_0000_0,
            net_hand_size == my_hand_size + opponent_hand_size,
            g.wf(),
            full == card_order_of(g),
            full.len() == CARD_ORDER_LEN,
            net_hand_size <= card_order.len(),
            card_order@ + ids_from_key(g, order + 2) == full,
            order <= g.next_order,
            card_order@.no_duplicates(),
            forall|a: int| 0 <= a < card_order.len() ==> location_key(g.locations[#[trigger] card_order@[a] as int]) < order + 2 && card_order@[a] < DECK_SIZE,
        decreases game.next_order - order,
    {
        let combination = collect_ids(&game.locations, None, order);
        let ghost before = card_order@;
        proof {
            assert(ids_from_key(g, order + 2) =~= combination@ + ids_from_key(g, order + 3));
        }
        let mut k: usize = 0;
        while k < combination.len()
            invariant
                k <= combination.len(),
                card_order@ == before + combination@.take(k as int),
                card_order@.no_duplicates(),
                before.no_duplicates(),
                g == game@,
                forall|a: int| 0 <= a < before.len() ==> location_key(g.locations[#[trigger] before[a] as int]) < order + 2 && before[a] < DECK_SIZE,
                forall|a: int| 0 <= a < combination.len() ==> #[trigger] combination@[a] < DECK_SIZE,
                forall|a: int| 0 <= a < combination.len() ==> location_key(g.locations[#[trigger] combination@[a] as int]) == order + 2,
                forall|a: int, b: int| 0 <= a < b < combination.len() ==> combination@[a] < combination@[b],
            decreases combination.len() - k,
        {
            let id = combination[k];
            proof {
                assert forall|a: int| 0 <= a < card_order.len() implies card_order@[a] != id by {
                    if a < before.len() {
                        assert(location_key(g.locations[before[a] as int]) < order + 2);
                    } else {
                        assert(card_order@[a] == combination@[a - before.len()]);
                    }
                }
            }
            card_order.push(id);
            assert(card_order@ =~= before + combination@.take(k + 1));
            k = k + 1;
        }
        assert(combination@.take(combination.len() as int) =~= combination@);
        proof {
            assert((before + combination@) + ids_from_key(g, order + 3) =~= full);
            assert forall|a: int| 0 <= a < card_order.len() implies location_key(g.locations[#[trigger] card_order@[a] as int]) < order + 3 && card_order@[a] < DECK_SIZE by {
                if a >= before.len() {
                    assert(card_order@[a] == combination@[a - before.len()]);
                }
            }
        }
        if combination.len() > 0 {
            let i = card_order.len() - net_hand_size;
            proof {
                assert(card_order.len() <= full.len()) by {
                    assert(card_order@ + ids_from_key(g, order + 3) == full);
                }
                lemma_set_bit_bound(grouping_array, (2 * (i - 1)) as u128);
            }
            set_1_for_grouping_array(&mut grouping_array, i - 1, 0);
            assert(location_key(g.locations[combination@[0] as int]) == order + 2);
            match game.locations[combination[0]] {
                Location::Table { captured_by, in_last_combination_before_pass, .. } => {
                    if in_last_combination_before_pass {
                        proof {
                            lemma_set_bit_bound(grouping_array, (2 * (i - 1) + 1) as u128);
                        }
                        set_1_for_grouping_array(&mut grouping_array, i - 1, 1);
                    }
                    last_captured = captured_by.is_some();
                },
                _ => {},
            }
        }
        order = order + 1;
    }
    proof {
        assert(ids_from_key(g, order + 2) =~= Seq::<usize>::empty());
        assert(card_order@ =~= full);
    }
    let num_cards_on_table = card_order.len() - net_hand_size;
    if num_cards_on_table > 0 && last_captured {
        proof {
            lemma_set_bit_bound(grouping_array, (2 * (num_cards_on_table - 1) + 1) as u128);
        }
        set_1_for_grouping_array(&mut grouping_array, num_cards_on_table - 1, 1);
    }
    assert(grouping_array == grouping_bitmap(g));
    assert(grouping_array >> 72u128 == 0) by (bit_vector)
        requires
            grouping_array < 0x1_0000_0000_0000_0000_0,
    ;
    let compressed_card_order = compress_card_order(card_order.as_slice());
    let mut compressed_game = pad_be(&compressed_card_order, CARD_ORDER_BYTE_LEN);
    let ghost padded = compressed_game@;
    compressed_game.push(my_hand_size as u8);
    compressed_game.push(opponent_hand_size as u8);
    assert(compressed_game@[CARD_ORDER_BYTE_LEN as int] == my_hand_size as u8);
    assert(compressed_game@[CARD_ORDER_BYTE_LEN + 1] == opponent_hand_size as u8);
    assert(compressed_game@.subrange(0, CARD_ORDER_BYTE_LEN as int) =~= padded);
    let grouping_bytes = u128_to_be(grouping_array, GROUPING_ARRAY_BYTE_LEN);
    let ghost prefix = compressed_game@;
    let mut k: usize = 0;
    while k < GROUPING_ARRAY_BYTE_LEN
        invariant
            k <= GROUPING_ARRAY_BYTE_LEN,
            grouping_bytes.len() == GROUPING_ARRAY_BYTE_LEN,
            compressed_game.len() == CARD_ORDER_BYTE_LEN + 2 + k,
            prefix.len() == CARD_ORDER_BYTE_LEN + 2,
            compressed_game@.subrange(0, CARD_ORDER_BYTE_LEN + 2) == prefix,
            compressed_game@.subrange(CARD_ORDER_BYTE_LEN + 2, CARD_ORDER_BYTE_LEN + 2 + k) == grouping_bytes@.take(k as int),
        decreases GROUPING_ARRAY_BYTE_LEN - k,
    {
        compressed_game.push(grouping_bytes[k]);
        assert(compressed_game@.subrange(CARD_ORDER_BYTE_LEN + 2, CARD_ORDER_BYTE_LEN + 2 + k + 1) =~= grouping_bytes@.take(k + 1));
        assert(compressed_game@.subrange(0, CARD_ORDER_BYTE_LEN + 2) =~= prefix);
        k = k + 1;
    }
    assert(compressed_game@.subrange(0, CARD_ORDER_BYTE_LEN as int) =~= prefix.subrange(0, CARD_ORDER_BYTE_LEN as int));
    compressed_game.push(if game.me_went_first {
        1u8
    } else {
        0u8
    });
    assert(compressed_game@.subrange(0, CARD_ORDER_BYTE_LEN as int) =~= padded);
    assert(grouping_bytes@.take(GROUPING_ARRAY_BYTE_LEN as int) =~= grouping_bytes@);
    assert(compressed_game@.subrange(CARD_ORDER_BYTE_LEN + 2, ENCODED_GAME_LEN - 1) =~= grouping_bytes@);
    assert(compressed_game@[CARD_ORDER_BYTE_LEN as int] == prefix[CARD_ORDER_BYTE_LEN as int]);
    assert(compressed_game@[CARD_ORDER_BYTE_LEN + 1] == prefix[CARD_ORDER_BYTE_LEN + 1]);
    compressed_game
}

/// `acc` with bit `b` set.
pub open spec fn set_bit(acc: u128, b: int) -> u128 {
    acc | (1u128 << (b as u128))
}

/// The grouping bitmap of combinations `o..next_order`, when `i` table
/// cards come before them, `acc` holds the bits so far and `last_captured`
/// tells whether the last combination listed was captured. The last card
/// of each combination gets bit 0; it gets bit 1 too when the combination
/// ended its group; after the last combination, bit 1 of the last table
/// card is set if that combination was captured.
pub open spec fn grouping_from(g: GameView, o: int, i: int, acc: u128, last_captured: bool) -> u128
    decreases g.next_order - o,
{
    if o < 0 || o >= g.next_order {
        if i > 0 && last_captured {
            set_bit(acc, 2 * (i - 1) + 1)
        } else {
            acc
        }
    } else {
        let comb = ids_with_key(g.locations, o + 2, DECK_SIZE as int);
        if comb.len() == 0 {
            grouping_from(g, o + 1, i, acc, last_captured)
        } else {
            let e = i + comb.len() - 1;
            let first = g.locations[comb[0] as int];
            let acc1 = set_bit(acc, 2 * e);
            let acc2 = if first matches Location::Table { in_last_combination_before_pass: true, .. } {
                set_bit(acc1, 2 * e + 1)
            } else {
                acc1
            };
            grouping_from(
                g,
                o + 1,
                i + comb.len(),
                acc2,
                first matches Location::Table { captured_by: Some(_), .. },
            )
        }
    }
}

/// The grouping bitmap of a game: two bits per table card, in the order in
/// which the encoding lists the table.
pub open spec fn grouping_bitmap(g: GameView) -> u128 {
    grouping_from(g, 0, 0, 0, false)
}

proof fn lemma_set_bit_bound(acc: u128, b: u128)
    requires
        acc < 0x1_0000_0000_0000_0000_0,
        b < 68,
    ensures
        acc | (1u128 << b) < 0x1_0000_0000_0000_0000_0,
{
    assert(acc | (1u128 << b) < 0x1_0000_0000_0000_0000_0) by (bit_vector)
        requires
            acc < 0x1_0000_0000_0000_0000_0,
            b < 68,
    ;
}

/// Whether an encoded game would list exactly `CARD_ORDER_LEN` cards.
fn lists_card_order_len(game: &Game) -> (r: bool)
    requires
        game@.wf(),
    ensures
        r == (card_order_of(game@).len() == CARD_ORDER_LEN),
{
    let ghost g = game@;
    let mine = collect_ids(&game.locations, Some(Player::Me), 0);
    let theirs = collect_ids(&game.locations, Some(Player::Opponent), 0);
    proof {
        assert(ids_from_key(g, 1) == theirs@ + ids_from_key(g, 2));
        assert(ids_from_key(g, 0) == mine@ + ids_from_key(g, 1));
        lemma_ids_with_key_len(g.locations, 0, DECK_SIZE as int);
        lemma_ids_with_key_len(g.locations, 1, DECK_SIZE as int);
    }
    let mut n: usize = mine.len() + theirs.len();
    let mut order: usize = 0;
    while order < game.next_order
        invariant
            g == game@,
            g.wf(),
            order <= g.next_order,
            n <= 2 * DECK_SIZE,
            n + ids_from_key(g, order + 2).len() == card_order_of(g).len(),
        decreases game.next_order - order,
    {
        if n > CARD_ORDER_LEN {
            return false;
        }
        let combination = collect_ids(&game.locations, None, order);
        proof {
            lemma_ids_with_key_len(g.locations, order + 2, DECK_SIZE as int);
            assert(ids_from_key(g, order + 2) == combination@ + ids_from_key(g, order + 3));
        }
        n = n + combination.len();
        order = order + 1;
    }
    assert(ids_from_key(g, order + 2) =~= Seq::<usize>::empty());
    n == CARD_ORDER_LEN
}

proof fn lemma_ids_with_key_len(locs: Seq<Location>, key: int, n: int)
    ensures
        ids_with_key(locs, key, n).len() <= if n < 0 { 0 } else { n },
    decreases n,
{
    if n > 0 {
        lemma_ids_with_key_len(locs, key, n - 1);
    }
}

impl Game {
    /// The game encoded, when it lists `CARD_ORDER_LEN` cards outside the
    /// Haggis (as every game dealt and played by the rules does).
    pub fn to_compressed(&self) -> (r: Option<Vec<u8>>)
        requires
            self@.wf(),
        ensures
            r is Some <==> card_order_of(self@).len() == CARD_ORDER_LEN,
            r matches Some(b) ==> b.len() == ENCODED_GAME_LEN && be_value(
                b@.subrange(0, CARD_ORDER_BYTE_LEN as int),
            ) == mixed_radix(order_digits(card_order_of(self@)), DECK_SIZE as nat),
    {
        if !lists_card_order_len(self) {
            return None;
        }
        Some(encode_game(self))
    }

    /// Replaces this game by the one that the peer encoded in `data`, seen
    /// from this side; `false`, with the game unchanged, if `data` is not a
    /// valid encoding.
    pub fn from_compressed(&mut self, data: &[u8]) -> (r: bool)
        ensures
            r <==> decode_spec(data@) is Ok,
            r ==> decode_spec(data@) == Ok::<GameView, DecodeError>(final(self)@.switched()),
            !r ==> final(self)@ == old(self)@,
    {
        match decode_game(data) {
            Ok(game) => {
                *self = game;
                let ghost decoded = self@;
                self.switch_perspective();
                proof {
                    lemma_switched_twice(decoded);
                }
                true
            },
            Err(_) => false,
        }
    }

    /// The two hands as the players were dealt them, one 32-bit number
    /// each (`compress_hand`), little-endian, mine first. Cards on the table
    /// count as the opponent's, since only the opponent can have played yet.
    /// `None` unless each of the two holds `INIT_HAND_SIZE_WO_WILDCARD`
    /// normal cards.
    pub fn get_client_id(&self) -> (r: Option<Vec<u8>>)
        requires
            self.locations.len() == DECK_SIZE,
        ensures
            r is Some <==> (normal_ids(self.locations@, mine(), NUM_NORMAL as int).len()
                == INIT_HAND_SIZE_WO_WILDCARD && normal_ids(self.locations@, theirs(), NUM_NORMAL as int).len()
                == INIT_HAND_SIZE_WO_WILDCARD),
            r matches Some(b) ==> b.len() == 8 && le_u32(b@.subrange(0, 4)) == hand_rank(
                normal_ids(self.locations@, mine(), NUM_NORMAL as int),
            ) && le_u32(b@.subrange(4, 8)) == hand_rank(
                normal_ids(self.locations@, theirs(), NUM_NORMAL as int),
            ),
    {
        let mut my_sorted_hand: Vec<usize> = Vec::new();
        let mut opponent_sorted_hand: Vec<usize> = Vec::new();
        let mut c: usize = 0;
        while c < NUM_NORMAL
            invariant
                c <= NUM_NORMAL,
                self.locations.len() == DECK_SIZE,
                my_sorted_hand@ == normal_ids(self.locations@, mine(), c as int),
                opponent_sorted_hand@ == normal_ids(self.locations@, theirs(), c as int),
            decreases NUM_NORMAL - c,
        {
            match self.locations[c] {
                Location::Hand(Player::Me) => my_sorted_hand.push(c),
                Location::Hand(Player::Opponent) | Location::Table { .. } => opponent_sorted_hand.push(c),
                _ => {},
            }
            c = c + 1;
        }
        proof {
            lemma_normal_ids_sorted(self.locations@, mine(), NUM_NORMAL as int);
            lemma_normal_ids_sorted(self.locations@, theirs(), NUM_NORMAL as int);
        }
        if my_sorted_hand.len() != INIT_HAND_SIZE_WO_WILDCARD || opponent_sorted_hand.len()
            != INIT_HAND_SIZE_WO_WILDCARD {
            return None;
        }
        let my_compressed_hand = compress_hand(my_sorted_hand.as_slice());
        let opponent_compressed_hand = compress_hand(opponent_sorted_hand.as_slice());
        let mut r = u32_to_le(my_compressed_hand);
        let theirs = u32_to_le(opponent_compressed_hand);
        let ghost mine_bytes = r@;
        let mut k: usize = 0;
        while k < 4
            invariant
                k <= 4,
                theirs.len() == 4,
                mine_bytes.len() == 4,
                r@ == mine_bytes + theirs@.take(k as int),
            decreases 4 - k,
        {
            r.push(theirs[k]);
            assert(r@ =~= mine_bytes + theirs@.take(k + 1));
            k = k + 1;
        }
        assert(r@.subrange(0, 4) =~= mine_bytes);
        assert(r@.subrange(4, 8) =~= theirs@);
        Some(r)
    }
}

/// Cards in my hand.
pub open spec fn mine() -> spec_fn(Location) -> bool {
    |l: Location| l == Location::Hand(Player::Me)
}

/// Cards in the opponent's hand or on the table.
pub open spec fn theirs() -> spec_fn(Location) -> bool {
    |l: Location| l == Location::Hand(Player::Opponent) || l is Table
}

/// The ids below `n` whose location satisfies `pred`, in increasing order.
pub open spec fn normal_ids(locs: Seq<Location>, pred: spec_fn(Location) -> bool, n: int) -> Seq<usize>
    decreases n,
{
    if n <= 0 {
        seq![]
    } else if pred(locs[n - 1]) {
        normal_ids(locs, pred, n - 1).push((n - 1) as usize)
    } else {
        normal_ids(locs, pred, n - 1)
    }
}

proof fn lemma_normal_ids_sorted(locs: Seq<Location>, pred: spec_fn(Location) -> bool, n: int)
    requires
        0 <= n <= NUM_NORMAL,
    ensures
        forall|k: int| 0 <= k < normal_ids(locs, pred, n).len() ==> #[trigger] normal_ids(locs, pred, n)[k] < n,
        forall|a: int, b: int|
            0 <= a < b < normal_ids(locs, pred, n).len() ==> normal_ids(locs, pred, n)[a]
                < normal_ids(locs, pred, n)[b],
        normal_ids(locs, pred, n).len() <= n,
    decreases n,
{
    if n > 0 {
        lemma_normal_ids_sorted(locs, pred, n - 1);
        let prev = normal_ids(locs, pred, n - 1);
        let cur = normal_ids(locs, pred, n);
        assert forall|k: int| 0 <= k < prev.len() implies #[trigger] prev[k] < n - 1 by {}
        if pred(locs[n - 1]) {
            assert(cur == prev.push((n - 1) as usize));
            assert forall|k: int| 0 <= k < cur.len() implies #[trigger] cur[k] < n by {
                if k < prev.len() {
                    assert(cur[k] == prev[k]);
                }
            }
            assert forall|a: int, b: int| 0 <= a < b < cur.len() implies cur[a] < cur[b] by {
                assert(cur[a] == prev[a]);
                if b < prev.len() {
                    assert(cur[b] == prev[b]);
                }
            }
        }
    }
}

/// The number that four little-endian bytes stand for.
pub open spec fn le_u32(b: Seq<u8>) -> nat {
    b[0] as nat + 256 * b[1] as nat + 65536 * b[2] as nat + 16777216 * b[3] as nat
}

/// The four little-endian bytes of `x`.
fn u32_to_le(x: u32) -> (r: Vec<u8>)
    ensures
        r.len() == 4,
        le_u32(r@) == x,
{
    let b0 = (x & 0xff) as u8;
    let b1 = ((x >> 8) & 0xff) as u8;
    let b2 = ((x >> 16) & 0xff) as u8;
    let b3 = ((x >> 24) & 0xff) as u8;
    assert(x == (x & 0xff) + 256 * ((x >> 8) & 0xff) + 65536 * ((x >> 16) & 0xff) + 16777216 * ((x >> 24) & 0xff)) by (bit_vector);
    assert((x & 0xff) < 256 && ((x >> 8) & 0xff) < 256 && ((x >> 16) & 0xff) < 256 && ((x >> 24) & 0xff) < 256) by (bit_vector);
    let r = vec![b0, b1, b2, b3];
    assert(r@ =~= seq![b0, b1, b2, b3]);
    r
}

proof fn lemma_switched_twice(g: GameView)
    ensures
        g.switched().switched() == g,
{
    assert(g.switched().switched().locations =~= g.locations);
}

/// The ids listed for key `key` are the cards with that key, in
/// increasing order.
pub proof fn lemma_ids_with_key_facts(locs: Seq<Location>, key: int, n: int)
    requires
        0 <= n <= locs.len(),
        n <= DECK_SIZE,
    ensures
        forall|k: int|
            0 <= k < ids_with_key(locs, key, n).len() ==> #[trigger] ids_with_key(locs, key, n)[k] < n
                && location_key(locs[ids_with_key(locs, key, n)[k] as int]) == key,
        forall|a: int, b: int|
            0 <= a < b < ids_with_key(locs, key, n).len() ==> ids_with_key(locs, key, n)[a]
                < ids_with_key(locs, key, n)[b],
        forall|c: int|
            0 <= c < n && location_key(#[trigger] locs[c]) == key ==> ids_with_key(locs, key, n).contains(
                c as usize,
            ),
    decreases n,
{
    if n > 0 {
        lemma_ids_with_key_facts(locs, key, n - 1);
        let prev = ids_with_key(locs, key, n - 1);
        let cur = ids_with_key(locs, key, n);
        assert forall|k: int| 0 <= k < prev.len() implies #[trigger] prev[k] < n - 1 && location_key(
            locs[prev[k] as int],
        ) == key by {}
        if location_key(locs[n - 1]) == key {
            assert(cur == prev.push((n - 1) as usize));
            assert forall|k: int| 0 <= k < cur.len() implies #[trigger] cur[k] < n && location_key(
                locs[cur[k] as int],
            ) == key by {
                if k < prev.len() {
                    assert(cur[k] == prev[k]);
                }
            }
            assert forall|a: int, b: int| 0 <= a < b < cur.len() implies cur[a] < cur[b] by {
                assert(cur[a] == prev[a]);
                if b < prev.len() {
                    assert(cur[b] == prev[b]);
                }
            }
            assert forall|c: int| 0 <= c < n && location_key(#[trigger] locs[c]) == key implies cur.contains(
                c as usize,
            ) by {
                if c < n - 1 {
                    let k = choose|k: int| 0 <= k < prev.len() && prev[k] == c as usize;
                    assert(cur[k] == prev[k]);
                } else {
                    assert(cur[cur.len() - 1] == c as usize);
                }
            }
        } else {
            assert(cur == prev);
            assert forall|c: int| 0 <= c < n && location_key(#[trigger] locs[c]) == key implies cur.contains(
                c as usize,
            ) by {
                assert(c < n - 1);
            }
        }
    }
}

} // verus!
