//! Decoding the encoding of a game played by the rules gives the game
//! back: replaying its table from the hands reproduces it.
use vstd::prelude::*;

use crate::bignum::be_value;
use crate::card::{Location, Player};
use crate::card_order::{
    is_order_prefix, lemma_card_order_round_trip, mixed_radix, order_digits, CARD_ORDER_BYTE_LEN,
    CARD_ORDER_LEN,
};
use crate::compression::{
    card_order_of, decode_spec, grouping_bitmap, grouping_from, has_bit, ids_from_key,
    ids_with_key, lemma_ids_with_key_count, lemma_ids_with_key_facts, location_key, replay,
    replay_step, set_bit, start_location, start_view, DecodeError, ENCODED_GAME_LEN,
};
use crate::constant::{DECK_SIZE, MAX_HAND_SIZE};
use crate::game::{
    captured_location, count_where, hand_of, lemma_capture_keeps_hands, lemma_type_ignores_order,
    same_cards, GameView,
};

verus! {

/// `replay`, also giving the cards of the combination still open.
pub open spec fn replay_full(g: GameView, cards: Seq<usize>, bitmap: u128, idx: int, pending: Seq<
    usize,
>) -> Option<(GameView, Seq<usize>)>
    decreases cards.len() - idx,
{
    if idx >= cards.len() || idx < 0 {
        Some((g, pending))
    } else {
        match replay_step(
            g,
            pending.push(cards[idx]),
            has_bit(bitmap, (2 * idx) as u128),
            has_bit(bitmap, (2 * idx + 1) as u128),
        ) {
            None => None,
            Some((g2, rest)) => replay_full(g2, cards, bitmap, idx + 1, rest),
        }
    }
}

proof fn lemma_replay_full(g: GameView, cards: Seq<usize>, bitmap: u128, idx: int, pending: Seq<usize>)
    ensures
        replay(g, cards, bitmap, idx, pending) == match replay_full(g, cards, bitmap, idx, pending) {
            Some((h, _)) => Some(h),
            None => None,
        },
    decreases cards.len() - idx,
{
    if !(idx >= cards.len() || idx < 0) {
        match replay_step(
            g,
            pending.push(cards[idx]),
            has_bit(bitmap, (2 * idx) as u128),
            has_bit(bitmap, (2 * idx + 1) as u128),
        ) {
            None => {},
            Some((g2, rest)) => {
                lemma_replay_full(g2, cards, bitmap, idx + 1, rest);
            },
        }
    }
}

/// Replaying `a + b` goes through `a` first.
proof fn lemma_replay_split(g: GameView, a: Seq<usize>, b: Seq<usize>, bitmap: u128, idx: int, pending: Seq<usize>)
    requires
        0 <= idx <= a.len(),
    ensures
        replay_full(g, a + b, bitmap, idx, pending) == match replay_full(g, a, bitmap, idx, pending) {
            Some((h, q)) => replay_full(h, a + b, bitmap, a.len() as int, q),
            None => None,
        },
    decreases a.len() - idx,
{
    if idx < a.len() {
        assert((a + b)[idx] == a[idx]);
        match replay_step(
            g,
            pending.push(a[idx]),
            has_bit(bitmap, (2 * idx) as u128),
            has_bit(bitmap, (2 * idx + 1) as u128),
        ) {
            None => {},
            Some((g2, rest)) => {
                lemma_replay_split(g2, a, b, bitmap, idx + 1, rest);
            },
        }
    }
}

/// Only the bits of the cards replayed matter.
proof fn lemma_replay_bits(g: GameView, cards: Seq<usize>, b1: u128, b2: u128, idx: int, pending: Seq<usize>)
    requires
        cards.len() <= 64,
        forall|c: u128| 2 * idx <= c < 2 * cards.len() ==> #[trigger] has_bit(b1, c) == has_bit(b2, c),
    ensures
        replay_full(g, cards, b1, idx, pending) == replay_full(g, cards, b2, idx, pending),
    decreases cards.len() - idx,
{
    if !(idx >= cards.len() || idx < 0) {
        assert(has_bit(b1, (2 * idx) as u128) == has_bit(b2, (2 * idx) as u128));
        assert(has_bit(b1, (2 * idx + 1) as u128) == has_bit(b2, (2 * idx + 1) as u128));
        match replay_step(
            g,
            pending.push(cards[idx]),
            has_bit(b1, (2 * idx) as u128),
            has_bit(b1, (2 * idx + 1) as u128),
        ) {
            None => {},
            Some((g2, rest)) => {
                lemma_replay_bits(g2, cards, b1, b2, idx + 1, rest);
            },
        }
    }
}

/// `a` and `b` are the same game but for the locations of the cards in
/// `s`, which are on the table in neither.
pub open spec fn same_but(a: GameView, b: GameView, s: Seq<usize>) -> bool {
    &&& a.current_player == b.current_player
    &&& a.me_went_first == b.me_went_first
    &&& a.last_combination_type == b.last_combination_type
    &&& a.next_order == b.next_order
    &&& a.locations.len() == DECK_SIZE
    &&& b.locations.len() == DECK_SIZE
    &&& forall|c: int| 0 <= c < DECK_SIZE && !s.contains(c as usize) ==> #[trigger] a.locations[c] == b.locations[c]
    &&& forall|c: int|
        0 <= c < DECK_SIZE && s.contains(c as usize) ==> !(#[trigger] a.locations[c] is Table) && !(
        b.locations[c] is Table)
}

pub open spec fn disjoint(x: Seq<usize>, s: Seq<usize>) -> bool {
    forall|k: int| 0 <= k < x.len() ==> !s.contains(#[trigger] x[k])
}

proof fn lemma_same_but_step(a: GameView, b: GameView, s: Seq<usize>, comb: Seq<usize>, ec: bool, eg: bool)
    requires
        same_but(a, b, s),
        disjoint(comb, s),
    ensures
        replay_step(a, comb, ec, eg) is Some <==> replay_step(b, comb, ec, eg) is Some,
        replay_step(a, comb, ec, eg) matches Some((a2, ra)) ==> (replay_step(b, comb, ec, eg) matches Some((b2, rb)) && ra == rb && same_but(a2, b2, s)),
{
    if ec && a.can_play(comb) {
        lemma_same_but_play(a, b, s, comb);
    }
    let a1 = if ec { a.play(comb) } else { a };
    let b1 = if ec { b.play(comb) } else { b };
    if eg && a1.can_play(seq![]) {
        lemma_same_but_play(a1, b1, s, seq![]);
    }
}

proof fn lemma_same_but_play(a: GameView, b: GameView, s: Seq<usize>, ids: Seq<usize>)
    requires
        same_but(a, b, s),
        disjoint(ids, s),
    ensures
        a.can_play(ids) == b.can_play(ids),
        same_but(a.play(ids), b.play(ids), s),
{
    let pa = a.play(ids);
    let pb = b.play(ids);
    if ids.len() == 0 {
        assert forall|c: int| 0 <= c < DECK_SIZE && !s.contains(c as usize) implies #[trigger] pa.locations[c] == pb.locations[c] by {}
        assert forall|c: int| 0 <= c < DECK_SIZE && s.contains(c as usize) implies !(#[trigger] pa.locations[c] is Table) && !(pb.locations[c] is Table) by {}
    } else {
        assert forall|c: int| 0 <= c < DECK_SIZE && s.contains(c as usize) implies !(#[trigger] pa.locations[c] is Table) && !(pb.locations[c] is Table) by {
            if ids.contains(c as usize) {
                let k = choose|k: int| 0 <= k < ids.len() && ids[k] == c as usize;
                assert(!s.contains(ids[k]));
            }
        }
    }
}

/// Replays that start from games equal but for cards they never touch end
/// in games equal but for those cards.
proof fn lemma_same_but_replay(a: GameView, b: GameView, s: Seq<usize>, cards: Seq<usize>, bitmap: u128, idx: int, pending: Seq<usize>)
    requires
        same_but(a, b, s),
        disjoint(pending, s),
        forall|k: int| idx <= k < cards.len() ==> !s.contains(#[trigger] cards[k]),
    ensures
        replay_full(a, cards, bitmap, idx, pending) is Some <==> replay_full(b, cards, bitmap, idx, pending) is Some,
        replay_full(a, cards, bitmap, idx, pending) matches Some((a2, qa)) ==> (replay_full(b, cards, bitmap, idx, pending) matches Some((b2, qb)) && qa == qb && same_but(a2, b2, s)),
    decreases cards.len() - idx,
{
    if !(idx >= cards.len() || idx < 0) {
        let comb = pending.push(cards[idx]);
        assert forall|k: int| 0 <= k < comb.len() implies !s.contains(#[trigger] comb[k]) by {
            if k < pending.len() {
                assert(comb[k] == pending[k]);
            }
        }
        let ec = has_bit(bitmap, (2 * idx) as u128);
        let eg = has_bit(bitmap, (2 * idx + 1) as u128);
        lemma_same_but_step(a, b, s, comb, ec, eg);
        match replay_step(a, comb, ec, eg) {
            None => {},
            Some((a2, rest)) => {
                let (b2, rb) = replay_step(b, comb, ec, eg)->0;
                assert forall|k: int| 0 <= k < rest.len() implies !s.contains(#[trigger] rest[k]) by {
                    assert(rest == comb || rest.len() == 0);
                }
                lemma_same_but_replay(a2, b2, s, cards, bitmap, idx + 1, rest);
            },
        }
    }
}

/// Replaying a combination whose only set bit is bit 0 of its last card
/// plays it.
proof fn lemma_replay_block(t: GameView, cards: Seq<usize>, bitmap: u128, start: int, j: int)
    requires
        0 <= start <= j < cards.len(),
        cards.len() <= 64,
        forall|k: int| start <= k < cards.len() - 1 ==> !#[trigger] has_bit(bitmap, (2 * k) as u128),
        forall|k: int| start <= k < cards.len() ==> !#[trigger] has_bit(bitmap, (2 * k + 1) as u128),
        has_bit(bitmap, (2 * (cards.len() - 1)) as u128),
        t.can_play(cards.subrange(start, cards.len() as int)),
        cards.len() > start,
    ensures
        replay_full(t, cards, bitmap, j, cards.subrange(start, j)) == Some(
            (t.play(cards.subrange(start, cards.len() as int)), Seq::<usize>::empty()),
        ),
    decreases cards.len() - j,
{
    let comb = cards.subrange(start, j).push(cards[j]);
    assert(comb =~= cards.subrange(start, j + 1));
    assert(!has_bit(bitmap, (2 * j + 1) as u128));
    if j == cards.len() - 1 {
        assert(comb =~= cards.subrange(start, cards.len() as int));
        assert(replay_step(t, comb, true, false) == Some((t.play(comb), Seq::<usize>::empty())));
        assert(replay_full(t.play(comb), cards, bitmap, j + 1, Seq::<usize>::empty()) == Some(
            (t.play(comb), Seq::<usize>::empty()),
        ));
    } else {
        assert(!has_bit(bitmap, (2 * j) as u128));
        assert(replay_step(t, comb, false, false) == Some((t, comb)));
        lemma_replay_block(t, cards, bitmap, start, j + 1);
    }
}

/// Every card has a location, and played cards an order below
/// `next_order`.
pub open spec fn table_in_order(g: GameView) -> bool {
    &&& g.locations.len() == DECK_SIZE
    &&& forall|c: int|
        0 <= c < DECK_SIZE ==> (#[trigger] g.locations[c] matches Location::Table { order, .. }
            ==> order < g.next_order)
}

/// The cards listed from key `key` on are those with such a key, once
/// each.
pub proof fn lemma_ids_from_key(g: GameView, key: int)
    requires
        table_in_order(g),
        0 <= key,
    ensures
        forall|c: usize|
            #[trigger] ids_from_key(g, key).contains(c) <==> (c < DECK_SIZE && key <= location_key(
                g.locations[c as int],
            ) < g.next_order + 2),
        ids_from_key(g, key).no_duplicates(),
    decreases g.next_order + 2 - key,
{
    if key >= g.next_order + 2 {
        assert forall|c: usize| !(c < DECK_SIZE && key <= #[trigger] location_key(g.locations[c as int]) < g.next_order + 2) by {
            if c < DECK_SIZE {
                let l = g.locations[c as int];
                if l is Table {
                    assert(l->order < g.next_order);
                }
            }
        }
    } else {
        lemma_ids_from_key(g, key + 1);
        lemma_ids_with_key_facts(g.locations, key, DECK_SIZE as int);
        let a = ids_with_key(g.locations, key, DECK_SIZE as int);
        let b = ids_from_key(g, key + 1);
        let r = ids_from_key(g, key);
        assert(r == a + b);
        assert forall|c: usize| #[trigger] r.contains(c) <==> (c < DECK_SIZE && key <= location_key(
            g.locations[c as int],
        ) < g.next_order + 2) by {
            if r.contains(c) {
                let k = choose|k: int| 0 <= k < r.len() && r[k] == c;
                if k < a.len() {
                    assert(a[k] == c);
                } else {
                    assert(b[k - a.len()] == c);
                    assert(b.contains(c));
                }
            }
            if c < DECK_SIZE && key <= location_key(g.locations[c as int]) < g.next_order + 2 {
                if location_key(g.locations[c as int]) == key {
                    assert(a.contains(c));
                    let k = choose|k: int| 0 <= k < a.len() && a[k] == c;
                    assert(r[k] == c);
                } else {
                    assert(b.contains(c));
                    let k = choose|k: int| 0 <= k < b.len() && b[k] == c;
                    assert(r[a.len() + k] == c);
                }
            }
        }
        assert forall|i: int, j: int| 0 <= i < j < r.len() implies r[i] != r[j] by {
            if j < a.len() {
            } else if i >= a.len() {
                assert(r[i] == b[i - a.len()] && r[j] == b[j - a.len()]);
            } else {
                assert(r[i] == a[i]);
                assert(r[j] == b[j - a.len()]);
                assert(b.contains(r[j]));
            }
        }
    }
}

/// The table part of the card order of `g`.
pub open spec fn table_of(g: GameView) -> Seq<usize> {
    ids_from_key(g, 2)
}

/// The game that the decoder starts from before it replays the table of
/// `g`.
pub open spec fn start_of(g: GameView) -> GameView {
    let my_size = ids_with_key(g.locations, 0, DECK_SIZE as int).len();
    let their_size = ids_with_key(g.locations, 1, DECK_SIZE as int).len();
    start_view(card_order_of(g), my_size as int, (my_size + their_size) as int, g.me_went_first)
}

pub open spec fn hand_or_haggis(l: Location) -> Location {
    if l is Hand {
        l
    } else {
        Location::Haggis
    }
}

proof fn lemma_card_order_parts(g: GameView)
    requires
        table_in_order(g),
    ensures
        card_order_of(g) == ids_with_key(g.locations, 0, DECK_SIZE as int) + ids_with_key(
            g.locations,
            1,
            DECK_SIZE as int,
        ) + table_of(g),
{
    assert(ids_from_key(g, 1) == ids_with_key(g.locations, 1, DECK_SIZE as int) + ids_from_key(g, 2));
    assert(ids_from_key(g, 0) == ids_with_key(g.locations, 0, DECK_SIZE as int) + ids_from_key(g, 1));
    assert(card_order_of(g) =~= ids_with_key(g.locations, 0, DECK_SIZE as int) + ids_with_key(
        g.locations,
        1,
        DECK_SIZE as int,
    ) + table_of(g));
}

/// Before the replay, the hands are in place and every other card is in
/// the Haggis.
pub proof fn lemma_start_of(g: GameView)
    requires
        table_in_order(g),
    ensures
        forall|c: int| 0 <= c < DECK_SIZE ==> #[trigger] start_of(g).locations[c] == hand_or_haggis(g.locations[c]),
        start_of(g).current_player == (if g.me_went_first { Player::Me } else { Player::Opponent }),
        start_of(g).next_order == 0,
        start_of(g).last_combination_type is None,
        start_of(g).me_went_first == g.me_went_first,
{
    let locs = g.locations;
    let mine = ids_with_key(locs, 0, DECK_SIZE as int);
    let theirs = ids_with_key(locs, 1, DECK_SIZE as int);
    let table = table_of(g);
    let order = card_order_of(g);
    lemma_card_order_parts(g);
    lemma_ids_from_key(g, 0);
    lemma_ids_from_key(g, 2);
    lemma_ids_with_key_facts(locs, 0, DECK_SIZE as int);
    lemma_ids_with_key_facts(locs, 1, DECK_SIZE as int);
    let my = mine.len() as int;
    let net = my + theirs.len();
    assert forall|c: int| 0 <= c < DECK_SIZE implies #[trigger] start_of(g).locations[c] == hand_or_haggis(locs[c]) by {
        let l = locs[c];
        let cu = c as usize;
        if l is Hand {
            if l == Location::Hand(Player::Me) {
                assert(location_key(l) == 0);
                assert(mine.contains(cu));
                let k = choose|k: int| 0 <= k < mine.len() && mine[k] == cu;
                assert(order[k] == cu);
            } else {
                assert(location_key(l) == 1);
                assert(theirs.contains(cu));
                let k = choose|k: int| 0 <= k < theirs.len() && theirs[k] == cu;
                assert(order[my + k] == cu);
                assert forall|j: int| 0 <= j < my implies order[j] != cu by {
                    assert(order.no_duplicates());
                }
            }
        } else if l is Table {
            assert(l->order < g.next_order);
            assert(table.contains(cu));
            let k = choose|k: int| 0 <= k < table.len() && table[k] == cu;
            assert(order[net + k] == cu);
            assert forall|j: int| 0 <= j < net implies order[j] != cu by {
                assert(order.no_duplicates());
            }
            assert(start_location(order, my, net, c) is Table);
        } else {
            assert(!order.contains(cu));
            assert forall|j: int| 0 <= j < order.len() implies order[j] != cu by {}
        }
    }
}

/// The state of the bitmap construction after combinations
/// `o..next_order`, before the final step: table cards so far, bits so far,
/// whether the last combination was captured.
pub open spec fn grouping_acc(g: GameView, o: int, i: int, acc: u128, last_captured: bool) -> (int, u128, bool)
    decreases g.next_order - o,
{
    if o < 0 || o >= g.next_order {
        (i, acc, last_captured)
    } else {
        let comb = ids_with_key(g.locations, o + 2, DECK_SIZE as int);
        if comb.len() == 0 {
            grouping_acc(g, o + 1, i, acc, last_captured)
        } else {
            let e = i + comb.len() - 1;
            let first = g.locations[comb[0] as int];
            let acc1 = set_bit(acc, 2 * e);
            let acc2 = if first matches Location::Table { in_last_combination_before_pass: true, .. } {
                set_bit(acc1, 2 * e + 1)
            } else {
                acc1
            };
            grouping_acc(
                g,
                o + 1,
                i + comb.len(),
                acc2,
                first matches Location::Table { captured_by: Some(_), .. },
            )
        }
    }
}

pub open spec fn grouping_end(i: int, acc: u128, last_captured: bool) -> u128 {
    if i > 0 && last_captured {
        set_bit(acc, 2 * (i - 1) + 1)
    } else {
        acc
    }
}

proof fn lemma_grouping_acc(g: GameView, o: int, i: int, acc: u128, lc: bool)
    requires
        0 <= o,
    ensures
        grouping_from(g, o, i, acc, lc) == ({
            let (i2, a2, l2) = grouping_acc(g, o, i, acc, lc);
            grouping_end(i2, a2, l2)
        }),
    decreases g.next_order - o,
{
    if o < g.next_order {
        let comb = ids_with_key(g.locations, o + 2, DECK_SIZE as int);
        if comb.len() == 0 {
            lemma_grouping_acc(g, o + 1, i, acc, lc);
        } else {
            let e = i + comb.len() - 1;
            let first = g.locations[comb[0] as int];
            let acc1 = set_bit(acc, 2 * e);
            let acc2 = if first matches Location::Table { in_last_combination_before_pass: true, .. } {
                set_bit(acc1, 2 * e + 1)
            } else {
                acc1
            };
            lemma_grouping_acc(g, o + 1, i + comb.len(), acc2, first matches Location::Table { captured_by: Some(_), .. });
        }
    }
}

/// The bits below `2 * i`.
pub open spec fn below(i: int) -> u128 {
    (1u128 << ((2 * i) as u128))
}

proof fn lemma_set_bit_below(acc: u128, b: int, i: int)
    requires
        0 <= b < 2 * i,
        2 * i <= 127,
        acc < below(i),
    ensures
        set_bit(acc, b) < below(i),
        has_bit(set_bit(acc, b), b as u128),
        forall|c: u128| c != b ==> #[trigger] has_bit(set_bit(acc, b), c) == has_bit(acc, c),
{
    let bb = b as u128;
    let n = (2 * i) as u128;
    assert(acc | (1u128 << bb) < (1u128 << n)) by (bit_vector)
        requires
            bb < n,
            n <= 127,
            acc < (1u128 << n),
    ;
    assert(((acc | (1u128 << bb)) >> bb) & 1 == 1) by (bit_vector)
        requires
            bb < 128,
    ;
    assert forall|c: u128| c != b implies #[trigger] has_bit(set_bit(acc, b), c) == has_bit(acc, c) by {
        assert(c != bb ==> (((acc | (1u128 << bb)) >> c) & 1 == 1 <==> (acc >> c) & 1 == 1)) by (bit_vector)
            requires
                bb < 128,
        ;
    }
}

proof fn lemma_below_grows(i: int, j: int)
    requires
        0 <= i <= j,
        2 * j <= 127,
    ensures
        below(i) <= below(j),
{
    let a = (2 * i) as u128;
    let b = (2 * j) as u128;
    assert((1u128 << a) <= (1u128 << b)) by (bit_vector)
        requires
            a <= b,
            b <= 127,
    ;
}

proof fn lemma_below_no_bit(acc: u128, i: int, c: u128)
    requires
        0 <= i,
        2 * i <= c,
        2 * i <= 127,
        acc < below(i),
    ensures
        !has_bit(acc, c),
{
    let n = (2 * i) as u128;
    assert(acc < (1u128 << n) && n <= c ==> (acc >> c) & 1 == 0) by (bit_vector)
        requires
            n <= 127,
    ;
}

/// Cards played in one combination share its capture state.
pub open spec fn combination_uniform(g: GameView) -> bool {
    forall|c: int, d: int|
        0 <= c < DECK_SIZE && 0 <= d < DECK_SIZE && #[trigger] g.locations[c] is Table
            && #[trigger] g.locations[d] is Table && g.locations[c]->order == g.locations[d]->order
            ==> g.locations[c]->captured_by == g.locations[d]->captured_by
            && g.locations[c]->in_last_combination_before_pass
            == g.locations[d]->in_last_combination_before_pass
}

/// Only captured cards are marked as ending a group, and the last
/// combination, once captured, is marked.
pub open spec fn flags_consistent(g: GameView) -> bool {
    &&& forall|c: int|
        0 <= c < DECK_SIZE && (#[trigger] g.locations[c]) is Table
            && g.locations[c]->in_last_combination_before_pass ==> g.locations[c]->captured_by is Some
    &&& forall|c: int|
        0 <= c < DECK_SIZE && (#[trigger] g.locations[c]) is Table && g.locations[c]->order + 1
            == g.next_order && g.locations[c]->captured_by is Some
            ==> g.locations[c]->in_last_combination_before_pass
}

/// While a group is open, its last combination is on the table, not
/// captured.
pub open spec fn open_group_consistent(g: GameView) -> bool {
    g.last_combination_type is Some ==> g.next_order > 0 && forall|c: int|
        0 <= c < DECK_SIZE && (#[trigger] g.locations[c]) is Table && g.locations[c]->order + 1
            == g.next_order ==> g.locations[c]->captured_by is None
}

/// Every combination played has cards.
pub open spec fn combinations_nonempty(g: GameView) -> bool {
    forall|o: int| 0 <= o < g.next_order ==> #[trigger] ids_with_key(g.locations, o + 2, DECK_SIZE as int).len() > 0
}

pub open spec fn table_shape(g: GameView) -> bool {
    &&& table_in_order(g)
    &&& combination_uniform(g)
    &&& flags_consistent(g)
    &&& open_group_consistent(g)
    &&& combinations_nonempty(g)
    &&& table_of(g).len() <= DECK_SIZE
}

proof fn lemma_set_bit_again(acc: u128, b: int)
    requires
        0 <= b < 128,
        has_bit(acc, b as u128),
    ensures
        set_bit(acc, b) == acc,
{
    let bb = b as u128;
    assert((acc >> bb) & 1 == 1 ==> acc | (1u128 << bb) == acc) by (bit_vector)
        requires
            bb < 128,
    ;
}

proof fn lemma_table_from(g: GameView, o: int)
    requires
        table_in_order(g),
        0 <= o <= g.next_order,
    ensures
        o < g.next_order ==> ids_from_key(g, o + 2) == ids_with_key(g.locations, o + 2, DECK_SIZE as int) + ids_from_key(g, o + 3),
        o == g.next_order ==> ids_from_key(g, o + 2).len() == 0,
{
}

/// What the bitmap construction yields on a well-shaped table.
proof fn lemma_grouping_shape(g: GameView, o: int, i: int, acc: u128, lc: bool)
    requires
        table_shape(g),
        0 <= o <= g.next_order,
        0 <= i,
        i + ids_from_key(g, o + 2).len() <= DECK_SIZE,
        acc < below(i),
    ensures
        ({
            let (i2, a2, l2) = grouping_acc(g, o, i, acc, lc);
            &&& i2 == i + ids_from_key(g, o + 2).len()
            &&& a2 < below(i2)
            &&& o < g.next_order ==> i2 > i && (l2 ==> has_bit(a2, (2 * (i2 - 1) + 1) as u128))
            &&& i2 - i >= g.next_order - o
            &&& o == g.next_order ==> a2 == acc && l2 == lc
        }),
    decreases g.next_order - o,
{
    lemma_table_from(g, o);
    if o < g.next_order {
        let comb = ids_with_key(g.locations, o + 2, DECK_SIZE as int);
        assert(comb.len() > 0);
        lemma_ids_with_key_facts(g.locations, o + 2, DECK_SIZE as int);
        let e = i + comb.len() - 1;
        let first = g.locations[comb[0] as int];
        assert(location_key(first) == o + 2);
        let acc1 = set_bit(acc, 2 * e);
        lemma_below_grows(i, e + 1);
        lemma_set_bit_below(acc, 2 * e, e + 1);
        let acc2 = if first matches Location::Table { in_last_combination_before_pass: true, .. } {
            set_bit(acc1, 2 * e + 1)
        } else {
            acc1
        };
        if first matches Location::Table { in_last_combination_before_pass: true, .. } {
            lemma_set_bit_below(acc1, 2 * e + 1, e + 1);
        }
        let lc2 = first matches Location::Table { captured_by: Some(_), .. };
        lemma_grouping_shape(g, o + 1, i + comb.len(), acc2, lc2);
        if o + 1 == g.next_order {
            if lc2 {
                assert(first->order + 1 == g.next_order);
                assert(first->in_last_combination_before_pass);
            }
        }
    }
}

/// The grouping bitmap of a well-shaped table: bits below twice its
/// length.
proof fn lemma_bitmap_shape(g: GameView)
    requires
        table_shape(g),
    ensures
        ({
            let (t, a, l) = grouping_acc(g, 0, 0, 0, false);
            &&& t == table_of(g).len()
            &&& grouping_bitmap(g) == a
            &&& a < below(t)
            &&& g.next_order > 0 ==> t > 0
            &&& t >= g.next_order
        }),
{
    assert(0u128 < below(0)) by {
        assert((1u128 << 0u128) == 1) by (bit_vector);
    }
    lemma_grouping_shape(g, 0, 0, 0, false);
    lemma_grouping_acc(g, 0, 0, 0, false);
    let (t, a, l) = grouping_acc(g, 0, 0, 0, false);
    if t > 0 && l {
        lemma_set_bit_again(a, 2 * (t - 1) + 1);
    }
}

/// Lists of the cards with a key agree where the key does.
proof fn lemma_same_keys(l1: Seq<Location>, l2: Seq<Location>, k: int, n: int)
    requires
        0 <= n <= l1.len(),
        n <= l2.len(),
        forall|c: int| 0 <= c < n ==> (location_key(#[trigger] l1[c]) == k) == (location_key(l2[c]) == k),
    ensures
        ids_with_key(l1, k, n) == ids_with_key(l2, k, n),
    decreases n,
{
    if n > 0 {
        lemma_same_keys(l1, l2, k, n - 1);
    }
}

/// A play that the rules allow and that takes distinct cards from the
/// hand of the player whose turn it is; or a pass.
pub open spec fn is_proper_play(g: GameView, ids: Seq<usize>) -> bool {
    &&& g.can_play(ids)
    &&& ids.len() <= DECK_SIZE
    &&& ids.no_duplicates()
    &&& forall|k: int|
        0 <= k < ids.len() ==> #[trigger] ids[k] < DECK_SIZE && g.locations[ids[k] as int]
            == Location::Hand(g.current_player)
}

/// The cards of a play, by increasing id, as the encoding lists them.
pub open spec fn played_list(g: GameView, ids: Seq<usize>) -> Seq<usize> {
    ids_with_key(g.play(ids).locations, g.next_order + 2, DECK_SIZE as int)
}

proof fn lemma_play_keys(g: GameView, ids: Seq<usize>)
    requires
        table_in_order(g),
        is_proper_play(g, ids),
        ids.len() > 0,
        g.next_order < DECK_SIZE,
    ensures
        table_in_order(g.play(ids)),
        forall|c: int|
            0 <= c < DECK_SIZE ==> #[trigger] g.play(ids).locations[c] == if ids.contains(c as usize) {
                Location::Table { captured_by: None, order: g.next_order, in_last_combination_before_pass: false }
            } else {
                g.locations[c]
            },
        same_cards(played_list(g, ids), ids),
        played_list(g, ids).len() == ids.len(),
        forall|k: int| 0 <= k < played_list(g, ids).len() ==> #[trigger] played_list(g, ids)[k] < DECK_SIZE,
        forall|k: int| 2 <= k < g.next_order + 2 ==> ids_with_key(g.play(ids).locations, k, DECK_SIZE as int) == #[trigger] ids_with_key(g.locations, k, DECK_SIZE as int),
{
    let g2 = g.play(ids);
    let o = g.next_order;
    assert forall|c: int| 0 <= c < DECK_SIZE implies (#[trigger] g2.locations[c] matches Location::Table { order, .. } ==> order < g2.next_order) by {
        if !ids.contains(c as usize) {
            if g.locations[c] is Table {
                assert(g.locations[c]->order < g.next_order);
            }
        }
    }
    let l = ids_with_key(g2.locations, o + 2, DECK_SIZE as int);
    lemma_ids_with_key_facts(g2.locations, o + 2, DECK_SIZE as int);
    assert forall|x: usize| l.contains(x) <==> ids.contains(x) by {
        if l.contains(x) {
            let k = choose|k: int| 0 <= k < l.len() && l[k] == x;
            assert(location_key(g2.locations[x as int]) == o + 2);
            if !ids.contains(x) {
                if g.locations[x as int] is Table {
                    assert(g.locations[x as int]->order < g.next_order);
                }
            }
        }
        if ids.contains(x) {
            let k = choose|k: int| 0 <= k < ids.len() && ids[k] == x;
            assert(x < DECK_SIZE);
            assert(location_key(g2.locations[x as int]) == o + 2);
        }
    }
    assert(l.no_duplicates()) by {
        assert forall|a: int, b: int| 0 <= a < b < l.len() implies l[a] != l[b] by {}
    }
    assert(same_cards(l, ids));
    lemma_type_ignores_order(l, ids);
    assert forall|k: int| 2 <= k < g.next_order + 2 implies ids_with_key(g2.locations, k, DECK_SIZE as int) == #[trigger] ids_with_key(g.locations, k, DECK_SIZE as int) by {
        assert forall|c: int| 0 <= c < DECK_SIZE implies (location_key(#[trigger] g2.locations[c]) == k) == (location_key(g.locations[c]) == k) by {
            if ids.contains(c as usize) {
                let m = choose|m: int| 0 <= m < ids.len() && ids[m] == c as usize;
                assert(g.locations[c] == Location::Hand(g.current_player));
            }
        }
        lemma_same_keys(g2.locations, g.locations, k, DECK_SIZE as int);
    }
}

/// A play appends its cards to the table part of the card order.
proof fn lemma_play_table(g: GameView, ids: Seq<usize>, k: int)
    requires
        table_in_order(g),
        is_proper_play(g, ids),
        ids.len() > 0,
        g.next_order < DECK_SIZE,
        2 <= k <= g.next_order + 2,
    ensures
        ids_from_key(g.play(ids), k) == ids_from_key(g, k) + played_list(g, ids),
    decreases g.next_order + 2 - k,
{
    lemma_play_keys(g, ids);
    let g2 = g.play(ids);
    if k == g.next_order + 2 {
        assert(ids_from_key(g2, k + 1).len() == 0);
        assert(ids_from_key(g2, k) =~= ids_from_key(g, k) + played_list(g, ids));
    } else {
        lemma_play_table(g, ids, k + 1);
        assert(ids_with_key(g2.locations, k, DECK_SIZE as int) == ids_with_key(g.locations, k, DECK_SIZE as int));
        assert(ids_from_key(g2, k) =~= ids_from_key(g, k) + played_list(g, ids));
    }
}

/// Games with the same cards in the Haggis list as many cards.
proof fn lemma_order_len(g1: GameView, g2: GameView)
    requires
        table_in_order(g1),
        table_in_order(g2),
        forall|c: int| 0 <= c < DECK_SIZE ==> (#[trigger] g1.locations[c] is Haggis <==> g2.locations[c] is Haggis),
    ensures
        card_order_of(g1).len() == card_order_of(g2).len(),
{
    lemma_ids_from_key(g1, 0);
    lemma_ids_from_key(g2, 0);
    let s1 = card_order_of(g1);
    let s2 = card_order_of(g2);
    assert forall|c: usize| s1.contains(c) <==> s2.contains(c) by {
        if c < DECK_SIZE {
            let l1 = g1.locations[c as int];
            let l2 = g2.locations[c as int];
            if l1 is Table {
                assert(l1->order < g1.next_order);
            }
            if l2 is Table {
                assert(l2->order < g2.next_order);
            }
        }
    }
    assert(s1.to_set() =~= s2.to_set());
    s1.unique_seq_to_set();
    s2.unique_seq_to_set();
}

/// Building the bitmap after a play: the new combination comes last,
/// with bit 0 on its last card.
#[verifier::rlimit(80)]
proof fn lemma_play_grouping(g: GameView, ids: Seq<usize>, k: int, i: int, acc: u128, lc: bool)
    requires
        table_in_order(g),
        is_proper_play(g, ids),
        ids.len() > 0,
        g.next_order < DECK_SIZE,
        0 <= k <= g.next_order,
    ensures
        grouping_acc(g.play(ids), k, i, acc, lc) == ({
            let (i1, a1, l1) = grouping_acc(g, k, i, acc, lc);
            (i1 + ids.len(), set_bit(a1, 2 * (i1 + ids.len() - 1)), false)
        }),
    decreases g.next_order - k,
{
    lemma_play_keys(g, ids);
    let g2 = g.play(ids);
    if k == g.next_order {
        let pl = played_list(g, ids);
        assert(ids_with_key(g2.locations, k + 2, DECK_SIZE as int) == pl);
        assert(pl.contains(pl[0]));
        assert(ids.contains(pl[0]));
        let first = g2.locations[pl[0] as int];
        assert(first == Location::Table { captured_by: None, order: g.next_order, in_last_combination_before_pass: false });
        let e = i + ids.len() - 1;
        assert(grouping_acc(g2, k + 1, i + ids.len(), set_bit(acc, 2 * e), false) == (i + ids.len(), set_bit(acc, 2 * e), false));
        assert(grouping_acc(g, k, i, acc, lc) == (i, acc, lc));
    } else {
        let comb = ids_with_key(g.locations, k + 2, DECK_SIZE as int);
        assert(ids_with_key(g2.locations, k + 2, DECK_SIZE as int) == comb);
        if comb.len() > 0 {
            lemma_ids_with_key_facts(g.locations, k + 2, DECK_SIZE as int);
            let c = comb[0];
            assert(location_key(g.locations[c as int]) == k + 2);
            if ids.contains(c) {
                let m = choose|m: int| 0 <= m < ids.len() && ids[m] == c;
            }
            assert(g2.locations[c as int] == g.locations[c as int]);
            let e = i + comb.len() - 1;
            let first = g.locations[c as int];
            let acc1 = set_bit(acc, 2 * e);
            let acc2 = if first matches Location::Table { in_last_combination_before_pass: true, .. } {
                set_bit(acc1, 2 * e + 1)
            } else {
                acc1
            };
            lemma_play_grouping(g, ids, k + 1, i + comb.len(), acc2, first matches Location::Table { captured_by: Some(_), .. });
        } else {
            lemma_play_grouping(g, ids, k + 1, i, acc, lc);
        }
    }
}

/// A play keeps the table well shaped and the card order as long.
proof fn lemma_play_shape(g: GameView, ids: Seq<usize>)
    requires
        table_shape(g),
        is_proper_play(g, ids),
        ids.len() > 0,
        card_order_of(g).len() == DECK_SIZE - 8,
    ensures
        table_shape(g.play(ids)),
        card_order_of(g.play(ids)).len() == DECK_SIZE - 8,
        table_of(g.play(ids)) == table_of(g) + played_list(g, ids),
        g.next_order < DECK_SIZE,
{
    lemma_bitmap_shape(g);
    lemma_card_order_parts(g);
    assert(g.next_order <= table_of(g).len());
    lemma_ids_from_key(g, 2);
    assert forall|m: int| 0 <= m < ids.len() implies !table_of(g).contains(#[trigger] ids[m]) by {
        assert(g.locations[ids[m] as int] is Hand);
    }
    assert(g.next_order < DECK_SIZE) by {
        assert(table_of(g).len() <= card_order_of(g).len());
    }
    lemma_play_keys(g, ids);
    lemma_play_table(g, ids, 2);
    let g2 = g.play(ids);
    let o = g.next_order;
    assert forall|c: int| 0 <= c < DECK_SIZE implies (#[trigger] g.locations[c] is Haggis <==> g2.locations[c] is Haggis) by {
        if ids.contains(c as usize) {
            let m = choose|m: int| 0 <= m < ids.len() && ids[m] == c as usize;
        }
    }
    lemma_order_len(g, g2);
    lemma_card_order_parts(g2);
    assert forall|c: int, d: int|
        0 <= c < DECK_SIZE && 0 <= d < DECK_SIZE && #[trigger] g2.locations[c] is Table
            && #[trigger] g2.locations[d] is Table && g2.locations[c]->order == g2.locations[d]->order
            implies g2.locations[c]->captured_by == g2.locations[d]->captured_by
            && g2.locations[c]->in_last_combination_before_pass
            == g2.locations[d]->in_last_combination_before_pass by {
        if !ids.contains(c as usize) && g.locations[c] is Table {
            assert(g.locations[c]->order < o);
        }
        if !ids.contains(d as usize) && g.locations[d] is Table {
            assert(g.locations[d]->order < o);
        }
    }
    assert forall|c: int|
        0 <= c < DECK_SIZE && (#[trigger] g2.locations[c]) is Table && g2.locations[c]->order + 1
            == g2.next_order && g2.locations[c]->captured_by is Some
            implies g2.locations[c]->in_last_combination_before_pass by {
        if !ids.contains(c as usize) && g.locations[c] is Table {
            assert(g.locations[c]->order < o);
        }
    }
    assert forall|c: int|
        0 <= c < DECK_SIZE && (#[trigger] g2.locations[c]) is Table && g2.locations[c]->order + 1
            == g2.next_order implies g2.locations[c]->captured_by is None by {
        if !ids.contains(c as usize) && g.locations[c] is Table {
            assert(g.locations[c]->order < o);
        }
    }
    assert forall|oo: int| 0 <= oo < g2.next_order implies #[trigger] ids_with_key(g2.locations, oo + 2, DECK_SIZE as int).len() > 0 by {
        if oo < o {
            assert(ids_with_key(g2.locations, oo + 2, DECK_SIZE as int) == ids_with_key(g.locations, oo + 2, DECK_SIZE as int));
        } else {
            assert(played_list(g, ids).len() == ids.len());
        }
    }
}

/// Capturing keeps every card's key.
proof fn lemma_pass_keys(g: GameView, k: int)
    requires
        table_in_order(g),
    ensures
        table_in_order(g.play(seq![])),
        ids_from_key(g.play(seq![]), k) == ids_from_key(g, k),
        forall|kk: int| ids_with_key(g.play(seq![]).locations, kk, DECK_SIZE as int) == #[trigger] ids_with_key(g.locations, kk, DECK_SIZE as int),
    decreases g.next_order + 2 - k,
{
    let g2 = g.play(seq![]);
    assert forall|c: int| 0 <= c < DECK_SIZE implies location_key(#[trigger] g2.locations[c]) == location_key(g.locations[c]) by {}
    assert forall|kk: int| ids_with_key(g2.locations, kk, DECK_SIZE as int) == #[trigger] ids_with_key(g.locations, kk, DECK_SIZE as int) by {
        assert forall|c: int| 0 <= c < DECK_SIZE implies (location_key(#[trigger] g2.locations[c]) == kk) == (location_key(g.locations[c]) == kk) by {}
        lemma_same_keys(g2.locations, g.locations, kk, DECK_SIZE as int);
    }
    assert forall|c: int| 0 <= c < DECK_SIZE implies (#[trigger] g2.locations[c] matches Location::Table { order, .. } ==> order < g2.next_order) by {
        if g.locations[c] is Table {
            assert(g.locations[c]->order < g.next_order);
        }
    }
    if 0 <= k < g.next_order + 2 {
        lemma_pass_keys(g, k + 1);
    }
}

/// Building the bitmap after a pass: the last combination gets bit 1.
proof fn lemma_pass_grouping(g: GameView, k: int, i: int, acc: u128, lc1: bool, lc2: bool)
    requires
        table_shape(g),
        g.last_combination_type is Some,
        0 <= k < g.next_order,
        0 <= i,
        i + ids_from_key(g, k + 2).len() <= DECK_SIZE,
        acc < below(i),
    ensures
        ({
            let (i1, a1, l1) = grouping_acc(g, k, i, acc, lc1);
            let (i2, a2, l2) = grouping_acc(g.play(seq![]), k, i, acc, lc2);
            &&& i1 == i2
            &&& i1 > i
            &&& a2 == set_bit(a1, 2 * (i1 - 1) + 1)
            &&& !has_bit(a1, (2 * (i1 - 1) + 1) as u128)
            &&& has_bit(a1, (2 * (i1 - 1)) as u128)
            &&& !l1
            &&& l2
        }),
    decreases g.next_order - k,
{
    lemma_table_from(g, k);
    lemma_pass_keys(g, 0);
    let g2 = g.play(seq![]);
    let o = g.next_order;
    let comb = ids_with_key(g.locations, k + 2, DECK_SIZE as int);
    assert(ids_with_key(g2.locations, k + 2, DECK_SIZE as int) == comb);
    assert(comb.len() > 0);
    lemma_ids_with_key_facts(g.locations, k + 2, DECK_SIZE as int);
    let c = comb[0];
    let f = g.locations[c as int];
    assert(location_key(f) == k + 2);
    assert(f is Table && f->order == k);
    let f2 = g2.locations[c as int];
    let e = i + comb.len() - 1;
    let acc1 = set_bit(acc, 2 * e);
    lemma_below_grows(i, e + 1);
    lemma_set_bit_below(acc, 2 * e, e + 1);
    if k == o - 1 {
        lemma_below_no_bit(acc, i, (2 * e + 1) as u128);
        assert(f->captured_by is None);
        assert(!f->in_last_combination_before_pass);
        assert(f2 matches Location::Table { captured_by: Some(_), in_last_combination_before_pass: true, .. });
        assert(grouping_acc(g, k, i, acc, lc1) == grouping_acc(g, k + 1, i + comb.len(), acc1, false));
        assert(grouping_acc(g, k + 1, i + comb.len(), acc1, false) == (i + comb.len(), acc1, false));
        assert(grouping_acc(g2, k, i, acc, lc2) == grouping_acc(g2, k + 1, i + comb.len(), set_bit(acc1, 2 * e + 1), true));
        assert(grouping_acc(g2, k + 1, i + comb.len(), set_bit(acc1, 2 * e + 1), true) == (i + comb.len(), set_bit(acc1, 2 * e + 1), true));
    } else {
        assert(f2->in_last_combination_before_pass == f->in_last_combination_before_pass);
        let acc2 = if f matches Location::Table { in_last_combination_before_pass: true, .. } {
            set_bit(acc1, 2 * e + 1)
        } else {
            acc1
        };
        if f matches Location::Table { in_last_combination_before_pass: true, .. } {
            lemma_set_bit_below(acc1, 2 * e + 1, e + 1);
        }
        lemma_table_from(g, k + 1);
        lemma_pass_grouping(g, k + 1, i + comb.len(), acc2, f matches Location::Table { captured_by: Some(_), .. }, f2 matches Location::Table { captured_by: Some(_), .. });
    }
}

/// A pass keeps the table well shaped.
proof fn lemma_pass_shape(g: GameView)
    requires
        table_shape(g),
        g.last_combination_type is Some,
    ensures
        table_shape(g.play(seq![])),
        table_of(g.play(seq![])) == table_of(g),
        card_order_of(g.play(seq![])) == card_order_of(g),
        start_of(g.play(seq![])) == start_of(g),
{
    lemma_pass_keys(g, 0);
    lemma_pass_keys(g, 2);
    let g2 = g.play(seq![]);
    let o = g.next_order;
    let p = g.capturer();
    assert forall|c: int, d: int|
        0 <= c < DECK_SIZE && 0 <= d < DECK_SIZE && #[trigger] g2.locations[c] is Table
            && #[trigger] g2.locations[d] is Table && g2.locations[c]->order == g2.locations[d]->order
            implies g2.locations[c]->captured_by == g2.locations[d]->captured_by
            && g2.locations[c]->in_last_combination_before_pass
            == g2.locations[d]->in_last_combination_before_pass by {
        assert(g.locations[c] is Table && g.locations[d] is Table);
    }
    assert forall|c: int|
        0 <= c < DECK_SIZE && (#[trigger] g2.locations[c]) is Table
            && g2.locations[c]->in_last_combination_before_pass implies g2.locations[c]->captured_by is Some by {
        assert(g.locations[c] is Table);
    }
    assert forall|c: int|
        0 <= c < DECK_SIZE && (#[trigger] g2.locations[c]) is Table && g2.locations[c]->order + 1
            == g2.next_order && g2.locations[c]->captured_by is Some
            implies g2.locations[c]->in_last_combination_before_pass by {
        assert(g.locations[c] is Table);
    }
    assert(g2.locations =~= g.locations.map_values(|l: Location| captured_location(l, p, o)));
    assert forall|c: int| 0 <= c < DECK_SIZE && (#[trigger] g2.locations[c]) is Table implies g2.locations[c]->captured_by is Some by {
        assert(g.locations[c] is Table);
    }
    assert forall|oo: int| 0 <= oo < g2.next_order implies #[trigger] ids_with_key(g2.locations, oo + 2, DECK_SIZE as int).len() > 0 by {
        assert(ids_with_key(g2.locations, oo + 2, DECK_SIZE as int) == ids_with_key(g.locations, oo + 2, DECK_SIZE as int));
    }
    assert(combination_uniform(g2));
    assert(flags_consistent(g2));
    assert(open_group_consistent(g2));
    assert(combinations_nonempty(g2));
    assert(table_in_order(g2));
    assert(start_of(g2) == start_of(g));
}

/// Replaying the table of `g` from the decoder's start gives `g` back.
pub open spec fn replays_to_itself(g: GameView) -> bool {
    replay_full(start_of(g), table_of(g), grouping_bitmap(g), 0, seq![]) == Some((g, Seq::<usize>::empty()))
}

proof fn lemma_same_but_play_eq(a: GameView, b: GameView, ids: Seq<usize>)
    requires
        same_but(a, b, ids),
        ids.len() > 0,
    ensures
        a.play(ids) == b.play(ids),
{
    assert(a.play(ids).locations =~= b.play(ids).locations);
}

#[verifier::rlimit(100)]
proof fn lemma_play_replays(g: GameView, ids: Seq<usize>)
    requires
        table_shape(g),
        card_order_of(g).len() == DECK_SIZE - 8,
        is_proper_play(g, ids),
        ids.len() > 0,
        replays_to_itself(g),
    ensures
        replays_to_itself(g.play(ids)),
{
    lemma_play_shape(g, ids);
    let g2 = g.play(ids);
    lemma_bitmap_shape(g);
    lemma_card_order_parts(g2);
    lemma_play_grouping(g, ids, 0, 0, 0, false);
    lemma_grouping_acc(g2, 0, 0, 0, false);
    lemma_play_keys(g, ids);
    let table = table_of(g);
    let pl = played_list(g, ids);
    let t = table.len() as int;
    let n = ids.len() as int;
    let t2 = t + n;
    assert(t2 <= DECK_SIZE - 8);
    let bm = grouping_bitmap(g);
    let bm2 = grouping_bitmap(g2);
    assert(bm2 == set_bit(bm, 2 * (t2 - 1)));
    lemma_below_grows(t, t2);
    lemma_set_bit_below(bm, 2 * (t2 - 1), t2);
    // the two start games differ only in the cards played now
    lemma_start_of(g);
    lemma_start_of(g2);
    lemma_play_keys(g, ids);
    let s = start_of(g);
    let s2 = start_of(g2);
    assert forall|c: int| 0 <= c < DECK_SIZE && !ids.contains(c as usize) implies #[trigger] s2.locations[c] == s.locations[c] by {}
    assert(same_but(s2, s, ids));
    // the old table is replayed alike
    lemma_ids_from_key(g, 2);
    assert forall|k: int| 0 <= k < table.len() implies !ids.contains(#[trigger] table[k]) by {
        assert(table.contains(table[k]));
        if ids.contains(table[k]) {
            let m = choose|m: int| 0 <= m < ids.len() && ids[m] == table[k];
        }
    }
    assert forall|c: u128| 0 <= c < 2 * table.len() implies #[trigger] has_bit(bm2, c) == has_bit(bm, c) by {}
    lemma_replay_bits(s2, table, bm2, bm, 0, seq![]);
    lemma_same_but_replay(s2, s, ids, table, bm, 0, seq![]);
    let (h, q) = replay_full(s2, table, bm, 0, seq![])->0;
    assert(same_but(h, g, ids));
    assert(q == Seq::<usize>::empty());
    lemma_replay_split(s2, table, pl, bm2, 0, seq![]);
    // then the new combination is played
    let cards = table + pl;
    assert(cards.subrange(t, t2) =~= pl);
    assert(cards.subrange(t, t) =~= Seq::<usize>::empty());
    lemma_type_ignores_order(pl, ids);
    assert(h.can_play(pl) == g.can_play(ids));
    assert forall|k: int| t <= k < cards.len() - 1 implies !#[trigger] has_bit(bm2, (2 * k) as u128) by {
        lemma_below_no_bit(bm, t, (2 * k) as u128);
    }
    assert forall|k: int| t <= k < cards.len() implies !#[trigger] has_bit(bm2, (2 * k + 1) as u128) by {
        lemma_below_no_bit(bm, t, (2 * k + 1) as u128);
    }
    lemma_replay_block(h, cards, bm2, t, t);
    lemma_same_but_play_eq(h, g, ids);
    assert(h.play(pl).locations =~= h.play(ids).locations);
    assert(h.play(pl) == h.play(ids));
}

/// The replay of a last card.
proof fn lemma_last_step(h: GameView, cards: Seq<usize>, bitmap: u128, idx: int, q: Seq<usize>)
    requires
        0 <= idx,
        cards.len() == idx + 1,
    ensures
        replay_full(h, cards, bitmap, idx, q) == replay_step(
            h,
            q.push(cards[idx]),
            has_bit(bitmap, (2 * idx) as u128),
            has_bit(bitmap, (2 * idx + 1) as u128),
        ),
{
    match replay_step(
        h,
        q.push(cards[idx]),
        has_bit(bitmap, (2 * idx) as u128),
        has_bit(bitmap, (2 * idx + 1) as u128),
    ) {
        None => {},
        Some((g2, rest)) => {
            assert(replay_full(g2, cards, bitmap, idx + 1, rest) == Some((g2, rest)));
        },
    }
}

#[verifier::rlimit(80)]
proof fn lemma_pass_replays(g: GameView)
    requires
        table_shape(g),
        card_order_of(g).len() == DECK_SIZE - 8,
        g.last_combination_type is Some,
        replays_to_itself(g),
    ensures
        replays_to_itself(g.play(seq![])),
{
    lemma_pass_shape(g);
    let g2 = g.play(seq![]);
    lemma_bitmap_shape(g);
    lemma_card_order_parts(g);
    let table = table_of(g);
    let t = table.len() as int;
    assert(t > 0);
    assert(t <= DECK_SIZE - 8);
    assert(0u128 < below(0)) by {
        assert((1u128 << 0u128) == 1) by (bit_vector);
    }
    lemma_pass_grouping(g, 0, 0, 0, false, false);
    lemma_grouping_acc(g, 0, 0, 0, false);
    lemma_grouping_acc(g2, 0, 0, 0, false);
    let bm = grouping_bitmap(g);
    let (t1, a1, l1) = grouping_acc(g, 0, 0, 0, false);
    let (t2, a2, l2) = grouping_acc(g2, 0, 0, 0, false);
    assert(bm == a1);
    lemma_set_bit_below(a1, 2 * (t - 1) + 1, t);
    lemma_set_bit_again(a2, 2 * (t - 1) + 1);
    let bm2 = grouping_bitmap(g2);
    assert(bm2 == set_bit(bm, 2 * (t - 1) + 1));
    let s = start_of(g);
    let a = table.take(t - 1);
    let x = seq![table[t - 1]];
    assert(table =~= a + x);
    lemma_replay_split(s, a, x, bm, 0, seq![]);
    lemma_replay_split(s, a, x, bm2, 0, seq![]);
    assert forall|c: u128| 0 <= c < 2 * a.len() implies #[trigger] has_bit(bm2, c) == has_bit(bm, c) by {}
    lemma_replay_bits(s, a, bm2, bm, 0, seq![]);
    let (h, q) = replay_full(s, a, bm, 0, seq![])->0;
    let comb = q.push(table[t - 1]);
    assert((a + x)[t - 1] == table[t - 1]);
    assert(has_bit(bm, (2 * (t - 1)) as u128));
    assert(!has_bit(bm, (2 * (t - 1) + 1) as u128));
    assert(has_bit(bm2, (2 * (t - 1)) as u128));
    assert(has_bit(bm2, (2 * (t - 1) + 1) as u128));
    lemma_last_step(h, a + x, bm, t - 1, q);
    lemma_last_step(h, a + x, bm2, t - 1, q);
    assert(replay_step(h, comb, true, false) == Some((g, Seq::<usize>::empty())));
    assert(h.can_play(comb));
    assert(h.play(comb) == g);
    assert(replay_step(h, comb, true, true) == Some((g.play(seq![]), Seq::<usize>::empty())));
}

proof fn lemma_count_mono(l1: Seq<Location>, l2: Seq<Location>, pred: spec_fn(Location) -> bool)
    requires
        l1.len() == l2.len(),
        forall|c: int| 0 <= c < l1.len() && pred(#[trigger] l1[c]) ==> pred(l2[c]),
    ensures
        count_where(l1, pred) <= count_where(l2, pred),
    decreases l1.len(),
{
    if l1.len() > 0 {
        let a = l1.drop_last();
        let b = l2.drop_last();
        assert forall|c: int| 0 <= c < a.len() && pred(#[trigger] a[c]) implies pred(b[c]) by {
            assert(a[c] == l1[c] && b[c] == l2[c]);
        }
        lemma_count_mono(a, b, pred);
    }
}

/// A play or a pass does not grow a hand.
proof fn lemma_hands_shrink(g: GameView, ids: Seq<usize>, p: Player)
    requires
        table_in_order(g),
        is_proper_play(g, ids),
        g.next_order < DECK_SIZE,
    ensures
        g.play(ids).hand_count(p) <= g.hand_count(p),
{
    if ids.len() == 0 {
        lemma_capture_keeps_hands(g, p);
        assert(g.play(ids).locations == g.capture().locations);
    } else {
        lemma_play_keys(g, ids);
        let g2 = g.play(ids);
        assert forall|c: int| 0 <= c < g2.locations.len() && hand_of(p)(#[trigger] g2.locations[c]) implies hand_of(p)(g.locations[c]) by {
            if ids.contains(c as usize) {
                let m = choose|m: int| 0 <= m < ids.len() && ids[m] == c as usize;
            }
        }
        lemma_count_mono(g2.locations, g.locations, hand_of(p));
    }
}

/// A game as dealt: nothing played yet, the turn with whoever went first,
/// every hand within its size and `CARD_ORDER_LEN` cards out of the Haggis.
pub open spec fn is_fresh_deal(g: GameView) -> bool {
    &&& g.wf()
    &&& g.next_order == 0
    &&& g.last_combination_type is None
    &&& g.current_player == (if g.me_went_first {
        Player::Me
    } else {
        Player::Opponent
    })
    &&& card_order_of(g).len() == CARD_ORDER_LEN
    &&& g.hand_count(Player::Me) <= MAX_HAND_SIZE
    &&& g.hand_count(Player::Opponent) <= MAX_HAND_SIZE
}

/// The game after `plays` (a pass being an empty play), from `g0`.
pub open spec fn after_plays(g0: GameView, plays: Seq<Seq<usize>>) -> GameView
    decreases plays.len(),
{
    if plays.len() == 0 {
        g0
    } else {
        after_plays(g0, plays.drop_last()).play(plays.last())
    }
}

/// Every play of `plays` is proper where it is made.
pub open spec fn is_proper_history(g0: GameView, plays: Seq<Seq<usize>>) -> bool
    decreases plays.len(),
{
    plays.len() == 0 || (is_proper_history(g0, plays.drop_last()) && is_proper_play(
        after_plays(g0, plays.drop_last()),
        plays.last(),
    ))
}

proof fn lemma_history(g0: GameView, plays: Seq<Seq<usize>>)
    requires
        is_fresh_deal(g0),
        is_proper_history(g0, plays),
    ensures
        ({
            let g = after_plays(g0, plays);
            &&& table_shape(g)
            &&& card_order_of(g).len() == CARD_ORDER_LEN
            &&& replays_to_itself(g)
            &&& g.hand_count(Player::Me) <= MAX_HAND_SIZE
            &&& g.hand_count(Player::Opponent) <= MAX_HAND_SIZE
        }),
    decreases plays.len(),
{
    if plays.len() == 0 {
        assert forall|c: int| 0 <= c < DECK_SIZE implies !(#[trigger] g0.locations[c] is Table) by {
            if g0.locations[c] is Table {
                assert(g0.locations[c]->order < g0.next_order);
            }
        }
        assert(table_of(g0).len() == 0);
        lemma_start_of(g0);
        assert(start_of(g0).locations =~= g0.locations);
        assert(start_of(g0) == g0);
    } else {
        let prev = plays.drop_last();
        let ids = plays.last();
        lemma_history(g0, prev);
        let g = after_plays(g0, prev);
        if ids.len() == 0 {
            lemma_pass_shape(g);
            lemma_pass_replays(g);
            lemma_bitmap_shape(g);
            lemma_card_order_parts(g);
        } else {
            lemma_play_shape(g, ids);
            lemma_play_replays(g, ids);
        }
        lemma_bitmap_shape(g);
        lemma_card_order_parts(g);
        lemma_hands_shrink(g, ids, Player::Me);
        lemma_hands_shrink(g, ids, Player::Opponent);
    }
}

/// Any game reached from a deal by proper plays comes back unchanged from
/// its encoding: bytes with the fields that `encode_game` writes for it
/// decode to it, unless both hands are empty.
pub proof fn lemma_game_round_trip(g0: GameView, plays: Seq<Seq<usize>>, b: Seq<u8>)
    requires
        is_fresh_deal(g0),
        is_proper_history(g0, plays),
        after_plays(g0, plays).hand_count(Player::Me) + after_plays(g0, plays).hand_count(
            Player::Opponent,
        ) > 0,
        b.len() == ENCODED_GAME_LEN,
        be_value(b.subrange(0, CARD_ORDER_BYTE_LEN as int)) == mixed_radix(
            order_digits(card_order_of(after_plays(g0, plays))),
            DECK_SIZE as nat,
        ),
        b[CARD_ORDER_BYTE_LEN as int] == after_plays(g0, plays).hand_count(Player::Me),
        b[CARD_ORDER_BYTE_LEN + 1] == after_plays(g0, plays).hand_count(Player::Opponent),
        be_value(b.subrange(CARD_ORDER_BYTE_LEN + 2, ENCODED_GAME_LEN - 1)) == grouping_bitmap(
            after_plays(g0, plays),
        ),
        b[ENCODED_GAME_LEN - 1] == (if after_plays(g0, plays).me_went_first {
            1u8
        } else {
            0u8
        }),
    ensures
        decode_spec(b) == Ok::<GameView, DecodeError>(after_plays(g0, plays)),
{
    let g = after_plays(g0, plays);
    lemma_history(g0, plays);
    let locs = g.locations;
    let order = card_order_of(g);
    lemma_ids_from_key(g, 0);
    lemma_card_order_parts(g);
    assert forall|k: int| 0 <= k < order.len() implies #[trigger] order[k] < DECK_SIZE by {
        assert(order.contains(order[k]));
    }
    assert(is_order_prefix(order));
    lemma_card_order_round_trip(order);
    lemma_ids_with_key_count(locs, Player::Me, DECK_SIZE as int);
    lemma_ids_with_key_count(locs, Player::Opponent, DECK_SIZE as int);
    assert(locs.take(DECK_SIZE as int) =~= locs);
    let mine = ids_with_key(locs, 0, DECK_SIZE as int);
    let theirs = ids_with_key(locs, 1, DECK_SIZE as int);
    let my = mine.len() as int;
    let net = my + theirs.len();
    assert(order.subrange(net, CARD_ORDER_LEN as int) =~= table_of(g));
    lemma_replay_full(start_of(g), table_of(g), grouping_bitmap(g), 0, seq![]);
    assert(grouping_bitmap(g) as nat as u128 == grouping_bitmap(g));
}

} // verus!
