//! The order of the cards that are not in the Haggis, as one big number:
//! the swaps that sort the deck into that order, read as digits of a
//! mixed-radix number (a Lehmer code for the first cards of a permutation).
use vstd::prelude::*;

use crate::bignum::{
    be_value, big_add_u32, big_div_u32, big_mul_u32, big_rem_u32, is_minimal_be, is_zero_be,
    lemma_be_lower,
};
use crate::constant::{DECK_SIZE, HAGGIS_SIZE};

verus! {

/// Cards whose order is encoded: all but the Haggis.
pub const CARD_ORDER_LEN: usize = DECK_SIZE - HAGGIS_SIZE;

/// Bytes of the encoded order.
pub const CARD_ORDER_BYTE_LEN: usize = 20;

/// The deck in id order.
pub open spec fn identity_order() -> Seq<usize> {
    Seq::new(DECK_SIZE as nat, |i: int| i as usize)
}

pub open spec fn swap_at(s: Seq<usize>, i: int, j: int) -> Seq<usize> {
    s.update(i, s[j]).update(j, s[i])
}

/// The deck after swapping, for each position `i` in turn, the card at `i`
/// with the card `d[i]` places further on.
pub open spec fn replay_swaps(d: Seq<nat>) -> Seq<usize>
    decreases d.len(),
{
    if d.len() == 0 {
        identity_order()
    } else {
        let i = d.len() - 1;
        swap_at(replay_swaps(d.drop_last()), i, i + d.last())
    }
}

/// Distinct card ids, no more than the deck holds.
pub open spec fn is_order_prefix(goal: Seq<usize>) -> bool {
    &&& goal.len() <= DECK_SIZE
    &&& goal.no_duplicates()
    &&& forall|k: int| 0 <= k < goal.len() ==> #[trigger] goal[k] < DECK_SIZE
}

/// An ordering of the whole deck.
pub open spec fn is_deck_order(s: Seq<usize>) -> bool {
    &&& s.len() == DECK_SIZE
    &&& s.no_duplicates()
    &&& forall|k: int| 0 <= k < s.len() ==> #[trigger] s[k] < DECK_SIZE
    &&& forall|v: usize| v < DECK_SIZE ==> #[trigger] s.contains(v)
}

/// The swap distances that bring the cards of `goal` to the front, in order.
pub open spec fn order_digits(goal: Seq<usize>) -> Seq<nat>
    decreases goal.len(),
{
    if goal.len() == 0 {
        seq![]
    } else {
        let prev = order_digits(goal.drop_last());
        let cur = replay_swaps(prev);
        let i = goal.len() - 1;
        let j = choose|j: int| i <= j < DECK_SIZE && cur[j] == goal.last();
        prev.push((j - i) as nat)
    }
}

/// `d[0] + radix * (d[1] + (radix - 1) * (d[2] + ...))`.
pub open spec fn mixed_radix(d: Seq<nat>, radix: nat) -> nat
    decreases d.len(),
{
    if d.len() == 0 {
        0
    } else {
        d[0] + radix * mixed_radix(d.drop_first(), (radix - 1) as nat)
    }
}

/// `radix * (radix - 1) * ...`, `n` factors.
pub open spec fn falling(radix: nat, n: nat) -> nat
    decreases n,
{
    if n == 0 {
        1
    } else {
        radix * falling((radix - 1) as nat, (n - 1) as nat)
    }
}

/// What is left of `v` after taking `i` digits.
pub open spec fn rest_after(v: nat, i: nat) -> nat
    decreases i,
{
    if i == 0 {
        v
    } else {
        rest_after(v, (i - 1) as nat) / ((DECK_SIZE - (i - 1)) as nat)
    }
}

/// Digit `i` of `v`, whose radix is `DECK_SIZE - i`.
pub open spec fn digit_at(v: nat, i: nat) -> nat {
    rest_after(v, i) % ((DECK_SIZE - i) as nat)
}

pub open spec fn digits_of(v: nat, n: nat) -> Seq<nat> {
    Seq::new(n, |i: int| digit_at(v, i as nat))
}

/// The order that the number `v` stands for, if it is below the number of
/// such orders.
pub open spec fn unrank_order(v: nat) -> Option<Seq<usize>> {
    if rest_after(v, CARD_ORDER_LEN as nat) == 0 {
        Some(replay_swaps(digits_of(v, CARD_ORDER_LEN as nat)).take(CARD_ORDER_LEN as int))
    } else {
        None
    }
}

pub open spec fn nat_digits(d: Seq<usize>) -> Seq<nat> {
    d.map_values(|x: usize| x as nat)
}

proof fn lemma_swap_keeps_deck_order(s: Seq<usize>, i: int, j: int)
    requires
        is_deck_order(s),
        0 <= i < DECK_SIZE,
        0 <= j < DECK_SIZE,
    ensures
        is_deck_order(swap_at(s, i, j)),
{
    let t = swap_at(s, i, j);
    assert forall|a: int, b: int| 0 <= a < b < t.len() implies t[a] != t[b] by {
        let pa = if a == j { i } else if a == i { j } else { a };
        let pb = if b == j { i } else if b == i { j } else { b };
        assert(t[a] == s[pa] && t[b] == s[pb]);
    }
    assert forall|v: usize| v < DECK_SIZE implies #[trigger] t.contains(v) by {
        assert(s.contains(v));
        let p = choose|p: int| 0 <= p < s.len() && s[p] == v;
        let q = if p == i { j } else if p == j { i } else { p };
        assert(t[q] == v);
    }
}

proof fn lemma_identity_is_deck_order()
    ensures
        is_deck_order(identity_order()),
{
    let s = identity_order();
    assert forall|v: usize| v < DECK_SIZE implies #[trigger] s.contains(v) by {
        assert(s[v as int] == v);
    }
}

/// Replaying the digits of `goal` orders the deck with `goal` in front, and
/// every digit fits its radix.
pub proof fn lemma_order_digits(goal: Seq<usize>)
    requires
        is_order_prefix(goal),
    ensures
        order_digits(goal).len() == goal.len(),
        forall|i: int| 0 <= i < goal.len() ==> i + #[trigger] order_digits(goal)[i] < DECK_SIZE,
        is_deck_order(replay_swaps(order_digits(goal))),
        replay_swaps(order_digits(goal)).take(goal.len() as int) == goal,
    decreases goal.len(),
{
    if goal.len() == 0 {
        lemma_identity_is_deck_order();
        assert(replay_swaps(order_digits(goal)).take(0) =~= goal);
    } else {
        let p = goal.drop_last();
        assert forall|k: int| 0 <= k < p.len() implies #[trigger] p[k] < DECK_SIZE by {
            assert(p[k] == goal[k]);
        }
        lemma_order_digits(p);
        let prev = order_digits(p);
        let cur = replay_swaps(prev);
        let i = goal.len() - 1;
        let v = goal.last();
        assert(cur.contains(v));
        let q = choose|q: int| 0 <= q < cur.len() && cur[q] == v;
        if q < i {
            assert(cur.take(i)[q] == p[q]);
            assert(goal[q] == goal[i]);
        }
        assert(i <= q < DECK_SIZE && cur[q] == v);
        let j = choose|j: int| i <= j < DECK_SIZE && cur[j] == goal.last();
        let d = order_digits(goal);
        assert(d == prev.push((j - i) as nat));
        assert(d.drop_last() =~= prev);
        lemma_swap_keeps_deck_order(cur, i, j);
        let next = replay_swaps(d);
        assert(next == swap_at(cur, i, j));
        assert forall|k: int| 0 <= k < goal.len() implies next.take(goal.len() as int)[k] == goal[k] by {
            if k < i {
                assert(cur.take(i)[k] == p[k]);
            }
        }
        assert(next.take(goal.len() as int) =~= goal);
        assert forall|k: int| 0 <= k < goal.len() implies k + #[trigger] d[k] < DECK_SIZE by {
            if k < i {
                assert(d[k] == prev[k]);
            }
        }
    }
}

/// Replaying digits that fit their radixes orders the whole deck.
pub proof fn lemma_replay_deck_order(d: Seq<nat>)
    requires
        d.len() <= DECK_SIZE,
        forall|i: int| 0 <= i < d.len() ==> i + #[trigger] d[i] < DECK_SIZE,
    ensures
        is_deck_order(replay_swaps(d)),
    decreases d.len(),
{
    if d.len() == 0 {
        lemma_identity_is_deck_order();
    } else {
        let p = d.drop_last();
        assert forall|i: int| 0 <= i < p.len() implies i + #[trigger] p[i] < DECK_SIZE by {
            assert(p[i] == d[i]);
        }
        lemma_replay_deck_order(p);
        lemma_swap_keeps_deck_order(replay_swaps(p), d.len() - 1, d.len() - 1 + d.last());
    }
}

/// A number with digits that fit their radixes is below the number of
/// orders of that length.
pub proof fn lemma_mixed_radix_bound(d: Seq<nat>, radix: nat)
    requires
        d.len() <= radix,
        forall|i: int| 0 <= i < d.len() ==> i + #[trigger] d[i] < radix,
    ensures
        mixed_radix(d, radix) < falling(radix, d.len()),
    decreases d.len(),
{
    if d.len() > 0 {
        let t = d.drop_first();
        let r1 = (radix - 1) as nat;
        assert forall|i: int| 0 <= i < t.len() implies i + #[trigger] t[i] < r1 by {
            assert(t[i] == d[i + 1]);
        }
        lemma_mixed_radix_bound(t, r1);
        let m = mixed_radix(t, r1) as int;
        let f = falling(r1, (d.len() - 1) as nat) as int;
        assert(d[0] + radix * m < radix * f) by (nonlinear_arith)
            requires
                m < f,
                d[0] < radix,
        ;
    }
}

/// One digit taken from the digits `d[i..]`.
proof fn lemma_take_digit(d: Seq<nat>, i: nat)
    requires
        d.len() == CARD_ORDER_LEN,
        forall|k: int| 0 <= k < d.len() ==> k + #[trigger] d[k] < DECK_SIZE,
        i < CARD_ORDER_LEN,
    ensures
        mixed_radix(d.subrange(i as int, CARD_ORDER_LEN as int), (DECK_SIZE - i) as nat) / ((
        DECK_SIZE - i) as nat) == mixed_radix(
            d.subrange(i + 1 as int, CARD_ORDER_LEN as int),
            (DECK_SIZE - i - 1) as nat,
        ),
        mixed_radix(d.subrange(i as int, CARD_ORDER_LEN as int), (DECK_SIZE - i) as nat) % ((
        DECK_SIZE - i) as nat) == d[i as int],
{
    let s = d.subrange(i as int, CARD_ORDER_LEN as int);
    let r = (DECK_SIZE - i) as nat;
    assert(s.drop_first() =~= d.subrange(i + 1 as int, CARD_ORDER_LEN as int));
    let m = mixed_radix(s.drop_first(), (r - 1) as nat) as int;
    assert(s[0] == d[i as int]);
    assert(mixed_radix(s, r) == d[i as int] + r * m);
    vstd::arithmetic::div_mod::lemma_fundamental_div_mod_converse(
        mixed_radix(s, r) as int,
        r as int,
        m,
        d[i as int] as int,
    );
}

/// Taking digits from a mixed-radix number gives back its digits.
pub proof fn lemma_rest_after(d: Seq<nat>, i: nat)
    requires
        d.len() == CARD_ORDER_LEN,
        forall|k: int| 0 <= k < d.len() ==> k + #[trigger] d[k] < DECK_SIZE,
        i <= CARD_ORDER_LEN,
    ensures
        rest_after(mixed_radix(d, DECK_SIZE as nat), i) == mixed_radix(
            d.subrange(i as int, CARD_ORDER_LEN as int),
            (DECK_SIZE - i) as nat,
        ),
        i < CARD_ORDER_LEN ==> digit_at(mixed_radix(d, DECK_SIZE as nat), i) == d[i as int],
    decreases i,
{
    if i == 0 {
        assert(d.subrange(0, CARD_ORDER_LEN as int) =~= d);
    } else {
        lemma_rest_after(d, (i - 1) as nat);
        lemma_take_digit(d, (i - 1) as nat);
    }
    if i < CARD_ORDER_LEN {
        lemma_take_digit(d, i);
    }
}

/// The orders of `CARD_ORDER_LEN` cards out of the deck are fewer than
/// the numbers that `CARD_ORDER_BYTE_LEN` bytes hold.
pub proof fn lemma_card_orders_fit()
    ensures
        falling(DECK_SIZE as nat, CARD_ORDER_LEN as nat) < vstd::arithmetic::power::pow(256, CARD_ORDER_BYTE_LEN as nat),
{
    reveal(vstd::arithmetic::power::pow);
    assert(falling(8, 0) == 1);
    assert(falling(9, 1) == 9);
    assert(falling(10, 2) == 90);
    assert(falling(11, 3) == 990);
    assert(falling(12, 4) == 11880);
    assert(falling(13, 5) == 154440);
    assert(falling(14, 6) == 2162160);
    assert(falling(15, 7) == 32432400);
    assert(falling(16, 8) == 518918400);
    assert(falling(17, 9) == 8821612800);
    assert(falling(18, 10) == 158789030400);
    assert(falling(19, 11) == 3016991577600);
    assert(falling(20, 12) == 60339831552000);
    assert(falling(21, 13) == 1267136462592000);
    assert(falling(22, 14) == 27877002177024000);
    assert(falling(23, 15) == 641171050071552000);
    assert(falling(24, 16) == 15388105201717248000);
    assert(falling(25, 17) == 384702630042931200000);
    assert(falling(26, 18) == 10002268381116211200000);
    assert(falling(27, 19) == 270061246290137702400000);
    assert(falling(28, 20) == 7561714896123855667200000);
    assert(falling(29, 21) == 219289731987591814348800000);
    assert(falling(30, 22) == 6578691959627754430464000000);
    assert(falling(31, 23) == 203939450748460387344384000000);
    assert(falling(32, 24) == 6526062423950732395020288000000);
    assert(falling(33, 25) == 215360059990374169035669504000000);
    assert(falling(34, 26) == 7322242039672721747212763136000000);
    assert(falling(35, 27) == 256278471388545261152446709760000000);
    assert(falling(36, 28) == 9226024969987629401488081551360000000);
    assert(falling(37, 29) == 341362923889542287855059017400320000000);
    assert(falling(38, 30) == 12971791107802606938492242661212160000000);
    assert(falling(39, 31) == 505899853204301670601197463787274240000000);
    assert(falling(40, 32) == 20235994128172066824047898551490969600000000);
    assert(falling(41, 33) == 829675759255054739785963840611129753600000000);
    assert(falling(42, 34) == 34846381888712299071010481305667449651200000000);
    assert(vstd::arithmetic::power::pow(256, 0) == 1);
    assert(vstd::arithmetic::power::pow(256, 1) == 256);
    assert(vstd::arithmetic::power::pow(256, 2) == 65536);
    assert(vstd::arithmetic::power::pow(256, 3) == 16777216);
    assert(vstd::arithmetic::power::pow(256, 4) == 4294967296);
    assert(vstd::arithmetic::power::pow(256, 5) == 1099511627776);
    assert(vstd::arithmetic::power::pow(256, 6) == 281474976710656);
    assert(vstd::arithmetic::power::pow(256, 7) == 72057594037927936);
    assert(vstd::arithmetic::power::pow(256, 8) == 18446744073709551616);
    assert(vstd::arithmetic::power::pow(256, 9) == 4722366482869645213696);
    assert(vstd::arithmetic::power::pow(256, 10) == 1208925819614629174706176);
    assert(vstd::arithmetic::power::pow(256, 11) == 309485009821345068724781056);
    assert(vstd::arithmetic::power::pow(256, 12) == 79228162514264337593543950336);
    assert(vstd::arithmetic::power::pow(256, 13) == 20282409603651670423947251286016);
    assert(vstd::arithmetic::power::pow(256, 14) == 5192296858534827628530496329220096);
    assert(vstd::arithmetic::power::pow(256, 15) == 1329227995784915872903807060280344576);
    assert(vstd::arithmetic::power::pow(256, 16) == 340282366920938463463374607431768211456);
    assert(vstd::arithmetic::power::pow(256, 17) == 87112285931760246646623899502532662132736);
    assert(vstd::arithmetic::power::pow(256, 18) == 22300745198530623141535718272648361505980416);
    assert(vstd::arithmetic::power::pow(256, 19) == 5708990770823839524233143877797980545530986496);
    assert(vstd::arithmetic::power::pow(256, 20) == 1461501637330902918203684832716283019655932542976);
}

/// Decoding the number of an order gives the order back.
pub proof fn lemma_card_order_round_trip(goal: Seq<usize>)
    requires
        goal.len() == CARD_ORDER_LEN,
        is_order_prefix(goal),
    ensures
        unrank_order(mixed_radix(order_digits(goal), DECK_SIZE as nat)) == Some(goal),
{
    let d = order_digits(goal);
    lemma_order_digits(goal);
    let v = mixed_radix(d, DECK_SIZE as nat);
    lemma_rest_after(d, CARD_ORDER_LEN as nat);
    assert(d.subrange(CARD_ORDER_LEN as int, CARD_ORDER_LEN as int).len() == 0);
    assert forall|i: int| 0 <= i < CARD_ORDER_LEN implies digits_of(v, CARD_ORDER_LEN as nat)[i]
        == d[i] by {
        lemma_rest_after(d, i as nat);
    }
    assert(digits_of(v, CARD_ORDER_LEN as nat) =~= d);
}

/// Encodes the order of the cards of `card_order_goal`: the swap distances
/// that bring them to the front of the deck, as a mixed-radix number in
/// big-endian bytes of at most `CARD_ORDER_BYTE_LEN`.
pub fn compress_card_order(card_order_goal: &[usize]) -> (r: Vec<u8>)
    requires
        card_order_goal.len() == CARD_ORDER_LEN,
        is_order_prefix(card_order_goal@),
    ensures
        be_value(r@) == mixed_radix(order_digits(card_order_goal@), DECK_SIZE as nat),
        is_minimal_be(r@),
        r.len() <= CARD_ORDER_BYTE_LEN,
{
    let ghost goal = card_order_goal@;
    let mut curr_card_order: Vec<usize> = Vec::new();
    let mut card_value_to_index: Vec<usize> = Vec::new();
    let mut c: usize = 0;
    while c < DECK_SIZE
        invariant
            c <= DECK_SIZE,
            curr_card_order@.len() == c,
            card_value_to_index@.len() == c,
            forall|k: int| 0 <= k < c ==> #[trigger] curr_card_order@[k] == k,
            forall|k: int| 0 <= k < c ==> #[trigger] card_value_to_index@[k] == k,
        decreases DECK_SIZE - c,
    {
        curr_card_order.push(c);
        card_value_to_index.push(c);
        c = c + 1;
    }
    assert(curr_card_order@ =~= identity_order());
    let mut distances: Vec<usize> = Vec::new();
    let mut i: usize = 0;
    while i < CARD_ORDER_LEN
        invariant
            i <= CARD_ORDER_LEN,
            goal == card_order_goal@,
            goal.len() == CARD_ORDER_LEN,
            is_order_prefix(goal),
            nat_digits(distances@) == order_digits(goal.take(i as int)),
            curr_card_order@ == replay_swaps(nat_digits(distances@)),
            card_value_to_index@.len() == DECK_SIZE,
            forall|v: int|
                0 <= v < DECK_SIZE && !goal.take(i as int).contains(v as usize) ==> {
                    let p = #[trigger] card_value_to_index@[v];
                    p < DECK_SIZE && curr_card_order@[p as int] == v
                },
        decreases CARD_ORDER_LEN - i,
    {
        let ghost pre = goal.take(i as int);
        proof {
            assert(is_order_prefix(pre));
            lemma_order_digits(pre);
            assert(pre =~= goal.take(i + 1).drop_last());
        }
        let card_value_goal = card_order_goal[i];
        proof {
            if pre.contains(card_value_goal) {
                let k = choose|k: int| 0 <= k < pre.len() && pre[k] == card_value_goal;
                assert(goal[k] == goal[i as int]);
            }
        }
        let j = card_value_to_index[card_value_goal];
        let ghost cur = curr_card_order@;
        proof {
            if j < i {
                assert(cur.take(i as int)[j as int] == pre[j as int]);
                assert(pre.contains(card_value_goal));
            }
            let jj = choose|jj: int| i <= jj < DECK_SIZE && cur[jj] == goal.take(i + 1).last();
            assert(goal.take(i + 1).last() == card_value_goal);
            assert(jj == j as int);
        }
        let x = curr_card_order[i];
        let y = curr_card_order[j];
        curr_card_order.set(i, y);
        curr_card_order.set(j, x);
        card_value_to_index.set(x, j);
        distances.push(j - i);
        proof {
            assert(nat_digits(distances@) =~= order_digits(goal.take(i as int)).push((j - i) as nat));
            assert(nat_digits(distances@).drop_last() =~= order_digits(goal.take(i as int)));
            assert(curr_card_order@ =~= swap_at(cur, i as int, j as int));
            let post = goal.take(i + 1);
            assert forall|v: int|
                0 <= v < DECK_SIZE && !post.contains(v as usize) implies {
                    let p = #[trigger] card_value_to_index@[v];
                    p < DECK_SIZE && curr_card_order@[p as int] == v
                } by {
                if pre.contains(v as usize) {
                    let k = choose|k: int| 0 <= k < pre.len() && pre[k] == v as usize;
                    assert(post[k] == pre[k]);
                }
                if v as usize == card_value_goal {
                    assert(post[i as int] == card_value_goal);
                }
            }
        }
        i = i + 1;
    }
    assert(goal.take(CARD_ORDER_LEN as int) =~= goal);
    let ghost d = nat_digits(distances@);
    proof {
        lemma_order_digits(goal);
    }
    let mut compressed: Vec<u8> = Vec::new();
    compressed.push(0);
    assert(compressed@.drop_last() =~= Seq::<u8>::empty());
    assert(be_value(Seq::<u8>::empty()) == 0);
    assert(compressed@.last() == 0);
    assert(be_value(compressed@) == 0);
    let mut k: usize = CARD_ORDER_LEN;
    assert(d.subrange(CARD_ORDER_LEN as int, CARD_ORDER_LEN as int).len() == 0);
    while k > 0
        invariant
            k <= CARD_ORDER_LEN,
            distances@.len() == CARD_ORDER_LEN,
            d == nat_digits(distances@),
            d == order_digits(goal),
            forall|m: int| 0 <= m < goal.len() ==> m + #[trigger] d[m] < DECK_SIZE,
            goal.len() == CARD_ORDER_LEN,
            be_value(compressed@) == mixed_radix(
                d.subrange(k as int, CARD_ORDER_LEN as int),
                (DECK_SIZE - k) as nat,
            ),
            is_minimal_be(compressed@),
        decreases k,
    {
        k = k - 1;
        let card_possibilities = (DECK_SIZE - k) as u32;
        let distance = distances[k];
        assert(d[k as int] == distance);
        let ghost before = be_value(compressed@);
        let scaled = big_mul_u32(&compressed, card_possibilities);
        compressed = big_add_u32(&scaled, distance as u32);
        let ghost sub = d.subrange(k as int, CARD_ORDER_LEN as int);
        assert(sub.drop_first() =~= d.subrange(k + 1, CARD_ORDER_LEN as int));
        assert(sub[0] == d[k as int]);
        assert(mixed_radix(sub, (DECK_SIZE - k) as nat) == d[k as int] + (DECK_SIZE - k) * before);
        assert(before * card_possibilities == (DECK_SIZE - k) * before) by (nonlinear_arith)
            requires
                card_possibilities == DECK_SIZE - k,
        ;
    }
    assert(d.subrange(0, CARD_ORDER_LEN as int) =~= d);
    proof {
        lemma_mixed_radix_bound(d, DECK_SIZE as nat);
        lemma_card_orders_fit();
        if compressed.len() > CARD_ORDER_BYTE_LEN {
            lemma_be_lower(compressed@);
            vstd::arithmetic::power::lemma_pow_increases(256, 20, (compressed.len() - 1) as nat);
        }
    }
    compressed
}

/// Decodes the order that `compressed` (big-endian) stands for; `None` when
/// the number is too large to be one.
pub fn decompress_card_order(compressed: &Vec<u8>) -> (r: Option<Vec<usize>>)
    ensures
        r is Some <==> unrank_order(be_value(compressed@)) is Some,
        r matches Some(o) ==> unrank_order(be_value(compressed@)) == Some(o@),
        r matches Some(o) ==> o.len() == CARD_ORDER_LEN && is_order_prefix(o@),
{
    let ghost v = be_value(compressed@);
    let mut card_possibilities: u32 = DECK_SIZE as u32;
    let mut curr_card_order: Vec<usize> = Vec::new();
    let mut c: usize = 0;
    while c < DECK_SIZE
        invariant
            c <= DECK_SIZE,
            curr_card_order@.len() == c,
            forall|k: int| 0 <= k < c ==> #[trigger] curr_card_order@[k] == k,
        decreases DECK_SIZE - c,
    {
        curr_card_order.push(c);
        c = c + 1;
    }
    assert(curr_card_order@ =~= identity_order());
    assert(digits_of(v, 0) =~= Seq::<nat>::empty());
    let mut rest: Vec<u8> = compressed.clone();
    let mut i: usize = 0;
    while i < CARD_ORDER_LEN
        invariant
            i <= CARD_ORDER_LEN,
            card_possibilities == DECK_SIZE - i,
            be_value(rest@) == rest_after(v, i as nat),
            curr_card_order@ == replay_swaps(digits_of(v, i as nat)),
            curr_card_order@.len() == DECK_SIZE,
        decreases CARD_ORDER_LEN - i,
    {
        let digits = big_rem_u32(&rest, card_possibilities);
        let distance: usize = if digits.len() == 0 {
            0
        } else {
            digits[0] as usize
        };
        assert(distance == digit_at(v, i as nat));
        rest = big_div_u32(&rest, card_possibilities);
        card_possibilities = card_possibilities - 1;
        let ghost cur = curr_card_order@;
        let j = i + distance;
        let x = curr_card_order[i];
        let y = curr_card_order[j];
        curr_card_order.set(i, y);
        curr_card_order.set(j, x);
        proof {
            assert(digits_of(v, (i + 1) as nat).drop_last() =~= digits_of(v, i as nat));
            assert(curr_card_order@ =~= swap_at(cur, i as int, j as int));
        }
        i = i + 1;
    }
    if !is_zero_be(&rest) {
        return None;
    }
    proof {
        let d = digits_of(v, CARD_ORDER_LEN as nat);
        assert forall|i: int| 0 <= i < d.len() implies i + #[trigger] d[i] < DECK_SIZE by {
            vstd::arithmetic::div_mod::lemma_mod_bound(rest_after(v, i as nat) as int, (DECK_SIZE - i) as int);
        }
        lemma_replay_deck_order(d);
    }
    let ghost full = curr_card_order@;
    curr_card_order.truncate(CARD_ORDER_LEN);
    proof {
        assert(curr_card_order@ =~= full.take(CARD_ORDER_LEN as int));
        assert forall|a: int, b: int| 0 <= a < b < curr_card_order@.len() implies curr_card_order@[a] != curr_card_order@[b] by {
            assert(full[a] != full[b]);
        }
        assert forall|k: int| 0 <= k < curr_card_order@.len() implies #[trigger] curr_card_order@[k] < DECK_SIZE by {
            assert(full[k] < DECK_SIZE);
        }
    }
    Some(curr_card_order)
}

} // verus!
