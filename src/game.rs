use vstd::prelude::*;

use crate::card::{card_value, lemma_card_value_wf, CardId, CardValue, Location, Player};
use crate::combination_type::{
    all_wf, bomb_rank_of, has_rank, has_suit, is_bomb, is_valid_normal, max_normal_rank,
    min_normal_rank, normal_type_of, num_normal, ranks_exactly, suit_count, CombinationType,
    NormalType,
};
use rand::seq::SliceRandom;

use crate::constant::{
    DECK_SIZE, INIT_HAND_SIZE_WO_WILDCARD, MAX_RANK, MIN_RANK, NUM_NORMAL, NUM_WILDCARDS_PER_PLAYER,
};

verus! {

// The game has three levels:
// - Combination: one player plays some cards, the other answers with more;
// - Combination group: the combinations played until a player passes;
// - Game (a hand in the rulebook): played until a player empties their hand.

/// One game, seen from the local player (`Player::Me`).
#[derive(Debug, Clone, PartialEq, Eq)]
pub struct Game {
    /// The location of the card with id `x` is `locations[x]`.
    pub locations: Vec<Location>,
    pub current_player: Player,
    pub me_went_first: bool,
    /// Type, with its shape resolved, of the last combination of the open
    /// group; `None` when no group is open.
    pub last_combination_type: Option<CombinationType>,
    /// The order that the next combination will have: the number of
    /// combinations played so far.
    pub next_order: usize,
}

/// A game as plain values.
pub ghost struct GameView {
    pub locations: Seq<Location>,
    pub current_player: Player,
    pub me_went_first: bool,
    pub last_combination_type: Option<CombinationType>,
    pub next_order: usize,
}

impl View for Game {
    type V = GameView;

    open spec fn view(&self) -> GameView {
        GameView {
            locations: self.locations@,
            current_player: self.current_player,
            me_went_first: self.me_went_first,
            last_combination_type: self.last_combination_type,
            next_order: self.next_order,
        }
    }
}

/// The values of the cards with the given ids.
pub open spec fn values_of(ids: Seq<usize>) -> Seq<CardValue> {
    ids.map_values(|id: usize| card_value(id as int))
}

pub open spec fn ids_in_deck(ids: Seq<usize>) -> bool {
    forall|k: int| 0 <= k < ids.len() ==> #[trigger] ids[k] < DECK_SIZE
}

/// The type of a non-empty play: a bomb if the cards form one, else a
/// normal combination if they form one.
pub open spec fn combination_type_of(ids: Seq<usize>) -> Option<CombinationType> {
    let vals = values_of(ids);
    match bomb_rank_of(vals) {
        Some(b) => Some(CombinationType::Bomb(b)),
        None => match normal_type_of(vals) {
            Some(t) => Some(CombinationType::Normal(t)),
            None => None,
        },
    }
}

/// The type that a play of type `cur` takes on when played after `last`,
/// or `None` when it may not be played there. A bomb beats any normal
/// combination and any lower bomb; a normal combination beats a normal
/// combination that it `beats`; anything opens a group.
pub open spec fn next_type(last: Option<CombinationType>, cur: Option<CombinationType>) -> Option<
    CombinationType,
> {
    match cur {
        None => None,
        Some(c) => match last {
            None => cur,
            Some(CombinationType::Bomb(l)) => match c {
                CombinationType::Bomb(b) => if b > l {
                    cur
                } else {
                    None
                },
                CombinationType::Normal(_) => None,
            },
            Some(CombinationType::Normal(l)) => match c {
                CombinationType::Bomb(_) => cur,
                CombinationType::Normal(n) => match n.beats(l) {
                    Some(t) => Some(CombinationType::Normal(t)),
                    None => None,
                },
            },
        },
    }
}

pub open spec fn hand_of(p: Player) -> spec_fn(Location) -> bool {
    |l: Location| l == Location::Hand(p)
}

pub open spec fn captured_by_player(p: Player) -> spec_fn(Location) -> bool {
    |l: Location| l matches Location::Table { captured_by: Some(q), .. } && q == p
}

pub open spec fn not_played() -> spec_fn(Location) -> bool {
    |l: Location| l is Hand || l is Haggis
}

/// Number of locations that satisfy `pred`.
pub open spec fn count_where(locs: Seq<Location>, pred: spec_fn(Location) -> bool) -> nat
    decreases locs.len(),
{
    if locs.len() == 0 {
        0
    } else {
        count_where(locs.drop_last(), pred) + if pred(locs.last()) {
            1nat
        } else {
            0nat
        }
    }
}

/// Points of the cards whose location satisfies `pred`.
pub open spec fn points_where(locs: Seq<Location>, pred: spec_fn(Location) -> bool) -> nat
    decreases locs.len(),
{
    if locs.len() == 0 {
        0
    } else {
        points_where(locs.drop_last(), pred) + if pred(locs.last()) {
            card_value(locs.len() - 1).points()
        } else {
            0nat
        }
    }
}

/// Ids that list the same cards, each once.
pub open spec fn same_cards(a: Seq<usize>, b: Seq<usize>) -> bool {
    &&& a.no_duplicates()
    &&& b.no_duplicates()
    &&& forall|x: usize| a.contains(x) <==> b.contains(x)
}

proof fn lemma_num_normal_set(ids: Seq<usize>)
    requires
        ids.no_duplicates(),
    ensures
        num_normal(values_of(ids)) == ids.to_set().filter(|c: usize| c < NUM_NORMAL).len(),
        ids.to_set().finite(),
    decreases ids.len(),
{
    broadcast use vstd::seq_lib::seq_to_set_is_finite;
    broadcast use vstd::set::group_set_axioms;

    if ids.len() == 0 {
        assert(ids.to_set().filter(|c: usize| c < NUM_NORMAL) =~= Set::<usize>::empty());
    } else {
        let p = ids.drop_last();
        let x = ids.last();
        assert(p.no_duplicates());
        lemma_num_normal_set(p);
        assert(values_of(ids).drop_last() =~= values_of(p));
        assert(ids =~= p.push(x));
        assert forall|y: usize| ids.contains(y) <==> (p.contains(y) || y == x) by {
            if ids.contains(y) {
                let k = choose|k: int| 0 <= k < ids.len() && ids[k] == y;
                if k < p.len() {
                    assert(p[k] == y);
                }
            }
            if p.contains(y) {
                let k = choose|k: int| 0 <= k < p.len() && p[k] == y;
                assert(ids[k] == y);
            }
            if y == x {
                assert(ids[ids.len() - 1] == x);
            }
        }
        assert(ids.to_set() =~= p.to_set().insert(x));
        assert(!p.contains(x));
        let f = |c: usize| c < NUM_NORMAL;
        if x < NUM_NORMAL {
            assert(ids.to_set().filter(f) =~= p.to_set().filter(f).insert(x));
        } else {
            assert(ids.to_set().filter(f) =~= p.to_set().filter(f));
        }
    }
}

proof fn lemma_min_max_char(vals: Seq<CardValue>)
    ensures
        forall|i: int| 0 <= i < vals.len() && (#[trigger] vals[i]) is Normal ==> min_normal_rank(vals) <= vals[i].spec_rank() <= max_normal_rank(vals) || false,
        min_normal_rank(vals) == MAX_RANK + 1 || exists|i: int| 0 <= i < vals.len() && (#[trigger] vals[i]) is Normal && vals[i].spec_rank() == min_normal_rank(vals),
        max_normal_rank(vals) == MIN_RANK - 1 || exists|i: int| 0 <= i < vals.len() && (#[trigger] vals[i]) is Normal && vals[i].spec_rank() == max_normal_rank(vals),
        min_normal_rank(vals) <= MAX_RANK + 1,
        max_normal_rank(vals) >= MIN_RANK - 1,
    decreases vals.len(),
{
    if vals.len() > 0 {
        let p = vals.drop_last();
        lemma_min_max_char(p);
        assert forall|i: int| 0 <= i < vals.len() && (#[trigger] vals[i]) is Normal implies min_normal_rank(vals) <= vals[i].spec_rank() <= max_normal_rank(vals) || false by {
            if i < p.len() {
                assert(vals[i] == p[i]);
            }
        }
        if min_normal_rank(vals) != MAX_RANK + 1 {
            if min_normal_rank(vals) == min_normal_rank(p) {
                let i = choose|i: int| 0 <= i < p.len() && (#[trigger] p[i]) is Normal && p[i].spec_rank() == min_normal_rank(p);
                assert(vals[i] == p[i]);
            } else {
                assert(vals[vals.len() - 1] == vals.last());
            }
        }
        if max_normal_rank(vals) != MIN_RANK - 1 {
            if max_normal_rank(vals) == max_normal_rank(p) {
                let i = choose|i: int| 0 <= i < p.len() && (#[trigger] p[i]) is Normal && p[i].spec_rank() == max_normal_rank(p);
                assert(vals[i] == p[i]);
            } else {
                assert(vals[vals.len() - 1] == vals.last());
            }
        }
    }
}

pub open spec fn appears_in(v: CardValue, vs: Seq<CardValue>) -> bool {
    exists|j: int| 0 <= j < vs.len() && vs[j] == v
}

/// Every value of each list is a value of the other.
pub open spec fn same_values(va: Seq<CardValue>, vb: Seq<CardValue>) -> bool {
    &&& forall|i: int| 0 <= i < va.len() ==> appears_in(#[trigger] va[i], vb)
    &&& forall|j: int| 0 <= j < vb.len() ==> appears_in(#[trigger] vb[j], va)
}

proof fn lemma_same_values(a: Seq<usize>, b: Seq<usize>)
    requires
        same_cards(a, b),
    ensures
        same_values(values_of(a), values_of(b)),
        a.len() == b.len(),
{
    broadcast use vstd::seq_lib::seq_to_set_is_finite;

    let va = values_of(a);
    let vb = values_of(b);
    assert(a.to_set() =~= b.to_set());
    a.unique_seq_to_set();
    b.unique_seq_to_set();
    assert forall|i: int| 0 <= i < va.len() implies appears_in(#[trigger] va[i], vb) by {
        assert(a.contains(a[i]));
        let j = choose|j: int| 0 <= j < b.len() && b[j] == a[i];
        assert(vb[j] == va[i]);
    }
    assert forall|j: int| 0 <= j < vb.len() implies appears_in(#[trigger] vb[j], va) by {
        assert(b.contains(b[j]));
        let i = choose|i: int| 0 <= i < a.len() && a[i] == b[j];
        assert(va[i] == vb[j]);
    }
}

proof fn lemma_same_values_bomb(va: Seq<CardValue>, vb: Seq<CardValue>)
    requires
        same_values(va, vb),
        va.len() == vb.len(),
    ensures
        bomb_rank_of(va) == bomb_rank_of(vb),
        suit_count(va) == suit_count(vb),
{
    assert forall|r: int| has_rank(va, r) <==> has_rank(vb, r) by {
        if has_rank(va, r) {
            let i = choose|i: int| 0 <= i < va.len() && (#[trigger] va[i]).spec_rank() == r;
            assert(appears_in(va[i], vb));
            let j = choose|j: int| 0 <= j < vb.len() && vb[j] == va[i];
        }
        if has_rank(vb, r) {
            let j = choose|j: int| 0 <= j < vb.len() && (#[trigger] vb[j]).spec_rank() == r;
            assert(appears_in(vb[j], va));
            let i = choose|i: int| 0 <= i < va.len() && va[i] == vb[j];
        }
    }
    assert forall|st: int| has_suit(va, st) <==> has_suit(vb, st) by {
        if has_suit(va, st) {
            let i = choose|i: int| 0 <= i < va.len() && va[i] is Normal && (#[trigger] va[i])->suit == st;
            assert(appears_in(va[i], vb));
            let j = choose|j: int| 0 <= j < vb.len() && vb[j] == va[i];
        }
        if has_suit(vb, st) {
            let j = choose|j: int| 0 <= j < vb.len() && vb[j] is Normal && (#[trigger] vb[j])->suit == st;
            assert(appears_in(vb[j], va));
            let i = choose|i: int| 0 <= i < va.len() && va[i] == vb[j];
        }
    }
    assert forall|rs: Seq<usize>| ranks_exactly(va, rs) <==> ranks_exactly(vb, rs) by {
        if ranks_exactly(va, rs) {
            assert forall|j: int| 0 <= j < vb.len() implies rs.contains(#[trigger] vb[j].spec_rank()) by {
                assert(appears_in(vb[j], va));
            let i = choose|i: int| 0 <= i < va.len() && va[i] == vb[j];
            }
            assert forall|j: int| 0 <= j < rs.len() implies has_rank(vb, #[trigger] rs[j] as int) by {
                assert(has_rank(va, rs[j] as int));
            }
        }
        if ranks_exactly(vb, rs) {
            assert forall|i: int| 0 <= i < va.len() implies rs.contains(#[trigger] va[i].spec_rank()) by {
                assert(appears_in(va[i], vb));
            let j = choose|j: int| 0 <= j < vb.len() && vb[j] == va[i];
            }
            assert forall|j: int| 0 <= j < rs.len() implies has_rank(va, #[trigger] rs[j] as int) by {
                assert(has_rank(vb, rs[j] as int));
            }
        }
    }
}

proof fn lemma_same_values_ranks(va: Seq<CardValue>, vb: Seq<CardValue>)
    requires
        same_values(va, vb),
    ensures
        min_normal_rank(va) == min_normal_rank(vb),
        max_normal_rank(va) == max_normal_rank(vb),
{
    lemma_min_max_char(va);
    lemma_min_max_char(vb);
    let mina = min_normal_rank(va);
    let minb = min_normal_rank(vb);
    if mina != MAX_RANK + 1 {
        let i = choose|i: int| 0 <= i < va.len() && (#[trigger] va[i]) is Normal && va[i].spec_rank() == mina;
        assert(appears_in(va[i], vb));
            let j = choose|j: int| 0 <= j < vb.len() && vb[j] == va[i];
        assert(minb <= mina);
    }
    if minb != MAX_RANK + 1 {
        let j = choose|j: int| 0 <= j < vb.len() && (#[trigger] vb[j]) is Normal && vb[j].spec_rank() == minb;
        assert(appears_in(vb[j], va));
            let i = choose|i: int| 0 <= i < va.len() && va[i] == vb[j];
        assert(mina <= minb);
    }
    let maxa = max_normal_rank(va);
    let maxb = max_normal_rank(vb);
    if maxa != MIN_RANK - 1 {
        let i = choose|i: int| 0 <= i < va.len() && (#[trigger] va[i]) is Normal && va[i].spec_rank() == maxa;
        assert(appears_in(va[i], vb));
            let j = choose|j: int| 0 <= j < vb.len() && vb[j] == va[i];
        assert(maxb >= maxa);
    }
    if maxb != MIN_RANK - 1 {
        let j = choose|j: int| 0 <= j < vb.len() && (#[trigger] vb[j]) is Normal && vb[j].spec_rank() == maxb;
        assert(appears_in(vb[j], va));
            let i = choose|i: int| 0 <= i < va.len() && va[i] == vb[j];
        assert(maxa >= maxb);
    }
}

proof fn lemma_same_cards_normal_count(a: Seq<usize>, b: Seq<usize>)
    requires
        same_cards(a, b),
    ensures
        num_normal(values_of(a)) == num_normal(values_of(b)),
{
    lemma_num_normal_set(a);
    lemma_num_normal_set(b);
    assert(a.to_set() =~= b.to_set());
}

proof fn lemma_normal_type_same(va: Seq<CardValue>, vb: Seq<CardValue>)
    requires
        va.len() == vb.len(),
        va.len() == 1 ==> va[0].spec_rank() == vb[0].spec_rank(),
        num_normal(va) == num_normal(vb),
        min_normal_rank(va) == min_normal_rank(vb),
        max_normal_rank(va) == max_normal_rank(vb),
        suit_count(va) == suit_count(vb),
    ensures
        normal_type_of(va) == normal_type_of(vb),
{
}

/// The type of a play does not depend on the order in which its cards
/// are listed.
pub proof fn lemma_type_ignores_order(a: Seq<usize>, b: Seq<usize>)
    requires
        same_cards(a, b),
    ensures
        combination_type_of(a) == combination_type_of(b),
        a.len() == b.len(),
{
    let va = values_of(a);
    let vb = values_of(b);
    lemma_same_values(a, b);
    lemma_same_values_bomb(va, vb);
    lemma_same_values_ranks(va, vb);
    lemma_same_cards_normal_count(a, b);
    if a.len() == 1 {
        assert(a.contains(a[0]));
        assert(b[0] == a[0]);
    }
    lemma_normal_type_same(va, vb);
    lemma_type_from_parts(a, b);
}

proof fn lemma_type_from_parts(a: Seq<usize>, b: Seq<usize>)
    requires
        bomb_rank_of(values_of(a)) == bomb_rank_of(values_of(b)),
        normal_type_of(values_of(a)) == normal_type_of(values_of(b)),
    ensures
        combination_type_of(a) == combination_type_of(b),
{
}

/// A location after the table is captured by `p`, when the next
/// combination would have order `next_order`.
pub open spec fn captured_location(l: Location, p: Player, next_order: usize) -> Location {
    match l {
        Location::Table { captured_by: None, order, in_last_combination_before_pass } => {
            Location::Table {
                captured_by: Some(p),
                order,
                in_last_combination_before_pass: in_last_combination_before_pass || order + 1
                    == next_order,
            }
        },
        _ => l,
    }
}

/// A location after the cards `ids` are played as combination `order`.
pub open spec fn placed_location(l: Location, c: int, ids: Seq<usize>, order: usize) -> Location {
    if ids.contains(c as usize) {
        Location::Table { captured_by: None, order, in_last_combination_before_pass: false }
    } else {
        l
    }
}

impl GameView {
    /// Every card has one location; played cards have an order below
    /// `next_order`; a resolved normal type is a proper rectangle.
    pub open spec fn wf(self) -> bool {
        &&& self.locations.len() == DECK_SIZE
        &&& forall|c: int|
            0 <= c < DECK_SIZE ==> (#[trigger] self.locations[c] matches Location::Table {
                order,
                ..
            } ==> order < self.next_order)
        &&& self.last_combination_type matches Some(CombinationType::Normal(t)) ==> t.wf()
    }

    pub open spec fn hand_count(self, p: Player) -> nat {
        count_where(self.locations, hand_of(p))
    }

    pub open spec fn is_over(self) -> bool {
        self.hand_count(Player::Me) == 0 || self.hand_count(Player::Opponent) == 0
    }

    /// Passing is legal inside an open group; a play is legal when its type
    /// may follow the group's last combination.
    pub open spec fn can_play(self, ids: Seq<usize>) -> bool {
        if ids.len() == 0 {
            self.last_combination_type is Some
        } else {
            next_type(self.last_combination_type, combination_type_of(ids)) is Some
        }
    }

    /// Who takes the table when the group ends: the player who played a
    /// bomb keeps it, otherwise the player who played last.
    pub open spec fn capturer(self) -> Player {
        if self.last_combination_type matches Some(CombinationType::Bomb(_)) {
            self.current_player
        } else {
            self.current_player.spec_other()
        }
    }

    /// The game after the open group is captured; whose turn it is stays.
    pub open spec fn capture(self) -> GameView {
        GameView {
            locations: self.locations.map_values(
                |l: Location| captured_location(l, self.capturer(), self.next_order),
            ),
            last_combination_type: None,
            ..self
        }
    }

    /// The game after the current player plays `ids` (a pass if empty).
    pub open spec fn play(self, ids: Seq<usize>) -> GameView {
        if ids.len() == 0 {
            GameView { current_player: self.current_player.spec_other(), ..self.capture() }
        } else {
            GameView {
                locations: Seq::new(
                    DECK_SIZE as nat,
                    |c: int| placed_location(self.locations[c], c, ids, self.next_order),
                ),
                current_player: self.current_player.spec_other(),
                last_combination_type: next_type(
                    self.last_combination_type,
                    combination_type_of(ids),
                ),
                next_order: (self.next_order + 1) as usize,
                ..self
            }
        }
    }

    /// The hand winner's bonus: five points per card left in either hand,
    /// and the points of the cards in both hands and in the Haggis.
    pub open spec fn hand_bonus(self) -> nat {
        5 * (self.hand_count(Player::Me) + self.hand_count(Player::Opponent)) + points_where(
            self.locations,
            not_played(),
        )
    }

    /// The scores (mine, the opponent's): points of the cards each player
    /// captured, and the hand bonus for the player whose hand is empty.
    pub open spec fn scores(self) -> (nat, nat) {
        let mine = points_where(self.locations, captured_by_player(Player::Me));
        let theirs = points_where(self.locations, captured_by_player(Player::Opponent));
        if self.hand_count(Player::Me) == 0 {
            (mine + self.hand_bonus(), theirs)
        } else if self.hand_count(Player::Opponent) == 0 {
            (mine, theirs + self.hand_bonus())
        } else {
            (mine, theirs)
        }
    }

    /// The game as scored: once it is over, the open group goes to the
    /// player who played last, as if the other had passed.
    pub open spec fn scored(self) -> GameView {
        if self.is_over() {
            self.capture()
        } else {
            self
        }
    }

    /// The same game seen from the other seat.
    pub open spec fn switched(self) -> GameView {
        GameView {
            locations: self.locations.map_values(|l: Location| switched_location(l)),
            current_player: self.current_player.spec_other(),
            me_went_first: !self.me_went_first,
            ..self
        }
    }
}

pub open spec fn switched_location(l: Location) -> Location {
    match l {
        Location::Hand(p) => Location::Hand(p.spec_other()),
        Location::Table { captured_by: Some(p), order, in_last_combination_before_pass } => {
            Location::Table {
                captured_by: Some(p.spec_other()),
                order,
                in_last_combination_before_pass,
            }
        },
        _ => l,
    }
}

/// Where the card `c` lies after a deal in which the normal cards were
/// shuffled into `order`: the first normal cards of `order` go to me, the
/// next as many to the opponent, the rest to the Haggis; the first three
/// wildcards are mine, the last three the opponent's.
pub open spec fn dealt_location(order: Seq<usize>, c: int) -> Location {
    if c >= NUM_NORMAL {
        if c < NUM_NORMAL + NUM_WILDCARDS_PER_PLAYER {
            Location::Hand(Player::Me)
        } else {
            Location::Hand(Player::Opponent)
        }
    } else if exists|j: int| 0 <= j < INIT_HAND_SIZE_WO_WILDCARD && order[j] == c {
        Location::Hand(Player::Me)
    } else if exists|j: int|
        INIT_HAND_SIZE_WO_WILDCARD <= j < 2 * INIT_HAND_SIZE_WO_WILDCARD && order[j] == c {
        Location::Hand(Player::Opponent)
    } else {
        Location::Haggis
    }
}

/// `order` lists every normal card once.
pub open spec fn is_shuffle(order: Seq<usize>) -> bool {
    &&& order.len() == NUM_NORMAL
    &&& order.no_duplicates()
    &&& forall|k: int| 0 <= k < order.len() ==> #[trigger] order[k] < NUM_NORMAL
}

/// Relies on rand's `SliceRandom::shuffle`, with the thread's generator:
/// it reorders the elements and keeps them.
#[verifier::external_body]
fn shuffle_ids(v: &mut Vec<usize>)
    ensures
        final(v)@.len() == old(v)@.len(),
        final(v)@.to_multiset() == old(v)@.to_multiset(),
{
    v.shuffle(&mut rand::thread_rng());
}

/// The normal cards in a random order.
fn shuffled_normal_cards() -> (r: Vec<usize>)
    ensures
        is_shuffle(r@),
{
    let mut indices: Vec<usize> = Vec::new();
    let mut i: usize = 0;
    while i < NUM_NORMAL
        invariant
            i <= NUM_NORMAL,
            indices@.len() == i,
            forall|k: int| 0 <= k < i ==> #[trigger] indices@[k] == k,
        decreases NUM_NORMAL - i,
    {
        indices.push(i);
        i = i + 1;
    }
    let ghost before = indices@;
    assert(before.no_duplicates());
    shuffle_ids(&mut indices);
    proof {
        broadcast use vstd::seq_lib::group_to_multiset_ensures;

        before.lemma_multiset_has_no_duplicates();
        assert forall|x: usize| indices@.to_multiset().contains(x) implies indices@.to_multiset().count(
            x,
        ) == 1 by {
            assert(before.to_multiset().contains(x));
        }
        indices@.lemma_multiset_has_no_duplicates_conv();
        assert forall|k: int| 0 <= k < indices@.len() implies #[trigger] indices@[k] < NUM_NORMAL by {
            let x = indices@[k];
            assert(indices@.contains(x));
            assert(indices@.to_multiset().count(x) > 0);
            assert(before.contains(x));
        }
    }
    indices
}

/// A played card of the open group.
pub open spec fn is_open(l: Location) -> bool {
    l matches Location::Table { captured_by: None, .. }
}

/// A played card of the open group, in combination `o`.
pub open spec fn open_in(l: Location, o: usize) -> bool {
    l matches Location::Table { captured_by: None, order, .. } && order == o
}

/// A played card of the open group, in a combination before `o`.
pub open spec fn open_below(l: Location, o: int) -> bool {
    l matches Location::Table { captured_by: None, order, .. } && order < o
}

/// Why a play was refused.
#[derive(Debug, Clone, Copy, PartialEq, Eq)]
pub enum PlayError {
    /// A pass with no open group, cards that form no combination, or a
    /// combination that may not follow the last one.
    IllegalPlay,
}

proof fn lemma_values_wf(ids: Seq<usize>)
    requires
        ids_in_deck(ids),
    ensures
        all_wf(values_of(ids)),
        values_of(ids).len() == ids.len(),
{
    assert forall|i: int| 0 <= i < values_of(ids).len() implies (#[trigger] values_of(ids)[i]).wf() by {
        lemma_card_value_wf(ids[i] as int);
    }
}

/// The values of the cards with the given ids.
fn card_values_of(ids: &[usize]) -> (r: Vec<CardValue>)
    requires
        ids_in_deck(ids@),
    ensures
        r@ == values_of(ids@),
        all_wf(r@),
{
    let mut r: Vec<CardValue> = Vec::new();
    let mut i: usize = 0;
    while i < ids.len()
        invariant
            i <= ids.len(),
            ids_in_deck(ids@),
            r@ == values_of(ids@.take(i as int)),
        decreases ids.len() - i,
    {
        let v = CardId(ids[i]).to_value();
        r.push(v);
        assert(values_of(ids@.take(i + 1)) =~= values_of(ids@.take(i as int)).push(v));
        i = i + 1;
    }
    assert(ids@.take(ids.len() as int) =~= ids@);
    proof {
        lemma_values_wf(ids@);
    }
    r
}

/// The type of a non-empty play, if it has one.
pub fn combination_type(card_ids: &[usize]) -> (r: Option<CombinationType>)
    requires
        ids_in_deck(card_ids@),
        card_ids.len() <= DECK_SIZE,
    ensures
        r == combination_type_of(card_ids@),
        r matches Some(CombinationType::Normal(t)) ==> t.wf(),
{
    let card_values = card_values_of(card_ids);
    if let Some(bomb_rank) = is_bomb(&card_values) {
        Some(CombinationType::Bomb(bomb_rank))
    } else {
        match is_valid_normal(&card_values) {
            Some(t) => Some(CombinationType::Normal(t)),
            None => None,
        }
    }
}

/// The type that `current` takes on after `last`, if it may follow it.
fn resolve_type(last: &Option<CombinationType>, current: Option<CombinationType>) -> (r: Option<
    CombinationType,
>)
    requires
        last matches Some(CombinationType::Normal(t)) ==> t.wf(),
        current matches Some(CombinationType::Normal(t)) ==> t.wf(),
    ensures
        r == next_type(*last, current),
        r matches Some(CombinationType::Normal(t)) ==> t.wf(),
{
    match current {
        None => None,
        Some(c) => match last {
            None => Some(c),
            Some(CombinationType::Bomb(l)) => match c {
                CombinationType::Bomb(b) => if b > *l {
                    Some(c)
                } else {
                    None
                },
                CombinationType::Normal(_) => None,
            },
            Some(CombinationType::Normal(l)) => match c {
                CombinationType::Bomb(_) => Some(c),
                CombinationType::Normal(n) => match n.has_higher_rank_than(l) {
                    Some(t) => Some(CombinationType::Normal(t)),
                    None => None,
                },
            },
        },
    }
}

/// Puts the cards `card_ids` on the table as combination `order`.
fn place_on_table(locations: &mut Vec<Location>, card_ids: &[usize], order: usize)
    requires
        old(locations).len() == DECK_SIZE,
        ids_in_deck(card_ids@),
    ensures
        final(locations).len() == DECK_SIZE,
        forall|c: int|
            0 <= c < DECK_SIZE ==> final(locations)@[c] == placed_location(
                #[trigger] old(locations)@[c],
                c,
                card_ids@,
                order,
            ),
{
    let ghost before = locations@;
    let mut k: usize = 0;
    while k < card_ids.len()
        invariant
            k <= card_ids.len(),
            ids_in_deck(card_ids@),
            locations.len() == DECK_SIZE,
            before.len() == DECK_SIZE,
            forall|c: int|
                0 <= c < DECK_SIZE ==> locations@[c] == placed_location(
                    #[trigger] before[c],
                    c,
                    card_ids@.take(k as int),
                    order,
                ),
        decreases card_ids.len() - k,
    {
        let id = card_ids[k];
        let ghost prev = locations@;
        locations.set(
            id,
            Location::Table { order, captured_by: None, in_last_combination_before_pass: false },
        );
        let ghost t0 = card_ids@.take(k as int);
        let ghost t1 = card_ids@.take(k + 1);
        assert(t1 =~= t0.push(id));
        assert forall|c: int| 0 <= c < DECK_SIZE implies locations@[c] == placed_location(
            #[trigger] before[c],
            c,
            t1,
            order,
        ) by {
            if c == id as int {
                assert(t1[k as int] == id);
                assert(t1.contains(id));
            } else {
                assert(locations@[c] == prev[c]);
                assert(t1.contains(c as usize) <==> t0.contains(c as usize)) by {
                    if t1.contains(c as usize) {
                        let j = choose|j: int| 0 <= j < t1.len() && t1[j] == c as usize;
                        assert(j < t0.len());
                        assert(t0[j] == t1[j]);
                    }
                    if t0.contains(c as usize) {
                        let j = choose|j: int| 0 <= j < t0.len() && t0[j] == c as usize;
                        assert(t1[j] == t0[j]);
                    }
                }
            }
        }
        k = k + 1;
    }
    assert(card_ids@.take(card_ids.len() as int) =~= card_ids@);
}

impl Game {
    /// Whether the current player may play `card_ids`; an empty list is a
    /// pass.
    pub fn can_play_cards(&self, card_ids: &[usize]) -> (r: bool)
        requires
            self@.wf(),
            ids_in_deck(card_ids@),
            card_ids.len() <= DECK_SIZE,
        ensures
            r == self@.can_play(card_ids@),
    {
        if card_ids.len() == 0 {
            return self.last_combination_type.is_some();
        }
        let current = combination_type(card_ids);
        resolve_type(&self.last_combination_type, current).is_some()
    }

    /// Captures the open group without changing whose turn it is.
    fn capture_table(&mut self)
        requires
            old(self)@.wf(),
        ensures
            final(self)@ == old(self)@.capture(),
            final(self)@.wf(),
    {
        let player_who_captures = match self.last_combination_type {
            Some(CombinationType::Bomb(_)) => self.current_player,
            _ => self.current_player.other(),
        };
        let ghost before = self@;
        let next_order = self.next_order;
        let mut i: usize = 0;
        while i < self.locations.len()
            invariant
                i <= self.locations.len(),
                self.locations.len() == DECK_SIZE,
                self.next_order == next_order,
                player_who_captures == before.capturer(),
                before.wf(),
                before.next_order == next_order,
                self.current_player == before.current_player,
                self.me_went_first == before.me_went_first,
                self.last_combination_type == before.last_combination_type,
                forall|c: int|
                    0 <= c < i ==> self.locations@[c] == captured_location(
                        #[trigger] before.locations[c],
                        player_who_captures,
                        next_order,
                    ),
                forall|c: int| i <= c < DECK_SIZE ==> self.locations@[c] == #[trigger] before.locations[c],
            decreases self.locations.len() - i,
        {
            let l = self.locations[i];
            assert(before.locations[i as int] == l);
            let new_l = match l {
                Location::Table { captured_by: None, order, in_last_combination_before_pass } => {
                    Location::Table {
                        captured_by: Some(player_who_captures),
                        order,
                        in_last_combination_before_pass: in_last_combination_before_pass
                            || order + 1 == next_order,
                    }
                },
                _ => l,
            };
            self.locations.set(i, new_l);
            i = i + 1;
        }
        self.last_combination_type = None;
        assert(self@.locations =~= before.capture().locations);
        assert(self@ == before.capture());
    }

    /// Plays `card_ids` for the current player (a pass when empty) and gives
    /// the turn to the other player. A pass ends the group: the table is
    /// captured. An illegal play is refused and leaves the game unchanged.
    pub fn play_cards(&mut self, card_ids: &[usize]) -> (r: Result<(), PlayError>)
        requires
            old(self)@.wf(),
            ids_in_deck(card_ids@),
            card_ids.len() <= DECK_SIZE,
            old(self).next_order < usize::MAX,
        ensures
            r is Ok <==> old(self)@.can_play(card_ids@),
            r is Ok ==> final(self)@ == old(self)@.play(card_ids@),
            r is Err ==> final(self)@ == old(self)@,
            final(self)@.wf(),
    {
        if card_ids.len() == 0 {
            if self.last_combination_type.is_none() {
                return Err(PlayError::IllegalPlay);
            }
            self.capture_table();
        } else {
            let current = combination_type(card_ids);
            let resolved = resolve_type(&self.last_combination_type, current);
            if resolved.is_none() {
                return Err(PlayError::IllegalPlay);
            }
            self.last_combination_type = resolved;
            let ghost before = self@;
            place_on_table(&mut self.locations, card_ids, self.next_order);
            assert(self@.locations =~= before.play(card_ids@).locations);
            self.next_order = self.next_order + 1;
        }
        self.current_player = self.current_player.other();
        Ok(())
    }
}

/// Which stage the game is in, for the local player.
#[derive(Debug, Clone, Copy, PartialEq, Eq)]
pub enum GameStage {
    BeforeGame,
    Play,
    Wait,
    GameOver,
}

/// How a card is shown to the local player.
#[derive(Debug, Clone, Copy, PartialEq, Eq)]
pub enum CardFrontendState {
    Haggis,
    InMyHand,
    JustPlayed,
    ThisCombinationGroup,
    CapturedByMe,
    CapturedByOpponent,
    InOpponentHand,
}

/// Number of cards in `p`'s hand.
fn count_hand(locations: &Vec<Location>, p: Player) -> (r: usize)
    ensures
        r == count_where(locations@, hand_of(p)),
        r <= locations.len(),
{
    let mut n: usize = 0;
    let mut i: usize = 0;
    while i < locations.len()
        invariant
            i <= locations.len(),
            n == count_where(locations@.take(i as int), hand_of(p)),
            n <= i,
        decreases locations.len() - i,
    {
        assert(locations@.take(i + 1).drop_last() =~= locations@.take(i as int));
        if locations[i] == Location::Hand(p) {
            n = n + 1;
        }
        i = i + 1;
    }
    assert(locations@.take(locations.len() as int) =~= locations@);
    n
}

impl Game {
    /// A game dealt from the normal cards in the order `shuffled`.
    pub fn from_shuffle(shuffled: &Vec<usize>) -> (r: Game)
        requires
            is_shuffle(shuffled@),
        ensures
            r@.wf(),
            forall|c: int| 0 <= c < DECK_SIZE ==> r@.locations[c] == dealt_location(shuffled@, c),
            r.current_player == Player::Me,
            r.me_went_first,
            r.last_combination_type is None,
            r.next_order == 0,
    {
        let mut locations: Vec<Location> = Vec::new();
        let mut c: usize = 0;
        while c < DECK_SIZE
            invariant
                c <= DECK_SIZE,
                locations@.len() == c,
                forall|d: int| 0 <= d < c ==> #[trigger] locations@[d] == Location::Haggis,
            decreases DECK_SIZE - c,
        {
            locations.push(Location::Haggis);
            c = c + 1;
        }
        deal_into(&mut locations, shuffled);
        Game {
            locations,
            current_player: Player::Me,
            me_went_first: true,
            last_combination_type: None,
            next_order: 0,
        }
    }

    /// A freshly dealt game.
    pub fn new() -> (r: Game)
        ensures
            r@.wf(),
            r.current_player == Player::Me,
            r.me_went_first,
            r.last_combination_type is None,
            r.next_order == 0,
            exists|order: Seq<usize>|
                is_shuffle(order) && forall|c: int|
                    0 <= c < DECK_SIZE ==> r@.locations[c] == #[trigger] dealt_location(order, c),
    {
        let shuffled = shuffled_normal_cards();
        Game::from_shuffle(&shuffled)
    }

    /// Deals anew into this game's card locations.
    pub fn init_state(&mut self)
        requires
            old(self).locations.len() == DECK_SIZE,
        ensures
            exists|order: Seq<usize>|
                is_shuffle(order) && forall|c: int|
                    0 <= c < DECK_SIZE ==> final(self)@.locations[c] == #[trigger] dealt_location(
                        order,
                        c,
                    ),
            final(self).current_player == old(self).current_player,
            final(self).me_went_first == old(self).me_went_first,
            final(self).last_combination_type == old(self).last_combination_type,
            final(self).next_order == old(self).next_order,
    {
        let shuffled = shuffled_normal_cards();
        let mut c: usize = 0;
        while c < DECK_SIZE
            invariant
                c <= DECK_SIZE,
                self.locations@.len() == DECK_SIZE,
                forall|d: int| 0 <= d < c ==> #[trigger] self.locations@[d] == Location::Haggis,
                self.current_player == old(self).current_player,
                self.me_went_first == old(self).me_went_first,
                self.last_combination_type == old(self).last_combination_type,
                self.next_order == old(self).next_order,
            decreases DECK_SIZE - c,
        {
            self.locations.set(c, Location::Haggis);
            c = c + 1;
        }
        deal_into(&mut self.locations, &shuffled);
    }

    /// The cards in `player`'s hand, by increasing id.
    pub fn get_hand(&self, player: Player) -> (r: Vec<CardId>)
        ensures
            forall|k: int|
                0 <= k < r.len() ==> (#[trigger] r@[k]).0 < self.locations.len()
                    && self.locations@[r@[k].0 as int] == Location::Hand(player),
            forall|k: int, m: int| 0 <= k < m < r.len() ==> (#[trigger] r@[k]).0 < (#[trigger] r@[m]).0,
            forall|c: int|
                0 <= c < self.locations.len() && #[trigger] self.locations@[c] == Location::Hand(player)
                    ==> exists|k: int| 0 <= k < r.len() && (#[trigger] r@[k]).0 == c,
    {
        let mut hand: Vec<CardId> = Vec::new();
        let mut i: usize = 0;
        while i < self.locations.len()
            invariant
                i <= self.locations.len(),
                forall|k: int|
                    0 <= k < hand.len() ==> (#[trigger] hand@[k]).0 < i
                        && self.locations@[hand@[k].0 as int] == Location::Hand(player),
                forall|k: int, m: int|
                    0 <= k < m < hand.len() ==> (#[trigger] hand@[k]).0 < (#[trigger] hand@[m]).0,
                forall|c: int|
                    0 <= c < i && #[trigger] self.locations@[c] == Location::Hand(player) ==> exists|
                        k: int,
                    | 0 <= k < hand.len() && (#[trigger] hand@[k]).0 == c,
            decreases self.locations.len() - i,
        {
            let ghost prev = hand@;
            if self.locations[i] == Location::Hand(player) {
                hand.push(CardId(i));
                assert(hand@[hand.len() - 1].0 == i);
            }
            assert forall|c: int|
                0 <= c < i + 1 && #[trigger] self.locations@[c] == Location::Hand(player) implies exists|
                    k: int,
                | 0 <= k < hand.len() && (#[trigger] hand@[k]).0 == c by {
                if c < i {
                    let k = choose|k: int| 0 <= k < prev.len() && (#[trigger] prev[k]).0 == c;
                    assert(hand@[k] == prev[k]);
                } else {
                    assert(hand@[hand.len() - 1].0 == c);
                }
            }
            i = i + 1;
        }
        hand
    }

    /// The number of cards in each hand: (mine, the opponent's).
    pub fn hand_sizes(&self) -> (r: (usize, usize))
        ensures
            r.0 == self@.hand_count(Player::Me),
            r.1 == self@.hand_count(Player::Opponent),
            r.0 <= self.locations.len(),
            r.1 <= self.locations.len(),
    {
        (count_hand(&self.locations, Player::Me), count_hand(&self.locations, Player::Opponent))
    }

    /// The game is over once a hand is empty.
    pub fn is_game_over(&self) -> (r: bool)
        ensures
            r == self@.is_over(),
    {
        let (mine, theirs) = self.hand_sizes();
        mine == 0 || theirs == 0
    }

    /// Scores the game as it stands: (mine, the opponent's). When the game
    /// is over, the open group is captured first.
    pub fn calculate_score(&mut self) -> (r: (usize, usize))
        requires
            old(self)@.wf(),
        ensures
            final(self)@ == old(self)@.scored(),
            final(self)@.wf(),
            r.0 == final(self)@.scores().0,
            r.1 == final(self)@.scores().1,
    {
        let (my_card_count, opponent_card_count) = self.hand_sizes();
        if my_card_count == 0 || opponent_card_count == 0 {
            self.capture_table();
            proof {
                lemma_capture_keeps_hands(old(self)@, Player::Me);
                lemma_capture_keeps_hands(old(self)@, Player::Opponent);
            }
        }
        let ghost g = self@;
        let mut my_score: usize = 0;
        let mut opponent_score: usize = 0;
        let mut left_points: usize = 0;
        let mut i: usize = 0;
        while i < self.locations.len()
            invariant
                i <= self.locations.len() == DECK_SIZE,
                g == self@,
                my_score == points_where(g.locations.take(i as int), captured_by_player(Player::Me)),
                opponent_score == points_where(
                    g.locations.take(i as int),
                    captured_by_player(Player::Opponent),
                ),
                left_points == points_where(g.locations.take(i as int), not_played()),
                my_score <= 5 * i,
                opponent_score <= 5 * i,
                left_points <= 5 * i,
            decreases self.locations.len() - i,
        {
            let ghost t = g.locations.take(i + 1);
            assert(t.drop_last() =~= g.locations.take(i as int));
            assert(t.last() == g.locations[i as int]);
            assert(t.len() - 1 == i);
            let points = CardId(i).to_value().point_value();
            match self.locations[i] {
                Location::Table { captured_by: Some(Player::Me), .. } => {
                    my_score = my_score + points;
                },
                Location::Table { captured_by: Some(Player::Opponent), .. } => {
                    opponent_score = opponent_score + points;
                },
                Location::Hand(..) | Location::Haggis => {
                    left_points = left_points + points;
                },
                Location::Table { captured_by: None, .. } => {},
            }
            i = i + 1;
        }
        assert(g.locations.take(DECK_SIZE as int) =~= g.locations);
        let winner_of_hand_bonus = 5 * (my_card_count + opponent_card_count) + left_points;
        if my_card_count == 0 {
            my_score = my_score + winner_of_hand_bonus;
        } else if opponent_card_count == 0 {
            opponent_score = opponent_score + winner_of_hand_bonus;
        }
        (my_score, opponent_score)
    }

    /// The combinations of the open group, in play order: each with its
    /// order and its cards by increasing id.
    pub fn get_table(&self) -> (r: Vec<(usize, Vec<CardId>)>)
        requires
            self@.wf(),
        ensures
            forall|k: int, m: int| 0 <= k < m < r.len() ==> (#[trigger] r@[k]).0 < (#[trigger] r@[m]).0,
            forall|k: int| 0 <= k < r.len() ==> (#[trigger] r@[k]).1.len() > 0,
            forall|k: int, j: int|
                0 <= k < r.len() && 0 <= j < r@[k].1.len() ==> {
                    let c = (#[trigger] r@[k].1@[j]).0;
                    c < DECK_SIZE && open_in(self.locations@[c as int], r@[k].0)
                },
            forall|k: int, i: int, j: int|
                0 <= k < r.len() && 0 <= i < j < r@[k].1.len() ==> (#[trigger] r@[k].1@[i]).0 < (
                #[trigger] r@[k].1@[j]).0,
            forall|c: int|
                0 <= c < DECK_SIZE && is_open(#[trigger] self.locations@[c]) ==> exists|k: int, j: int|
                    0 <= k < r.len() && 0 <= j < r@[k].1.len() && (#[trigger] r@[k].1@[j]).0 == c,
    {
        let mut table: Vec<(usize, Vec<CardId>)> = Vec::new();
        let mut order: usize = 0;
        while order < self.next_order
            invariant
                self@.wf(),
                order <= self.next_order,
                forall|k: int| 0 <= k < table.len() ==> (#[trigger] table@[k]).0 < order,
                forall|k: int, m: int| 0 <= k < m < table.len() ==> (#[trigger] table@[k]).0 < (#[trigger] table@[m]).0,
                forall|k: int| 0 <= k < table.len() ==> (#[trigger] table@[k]).1.len() > 0,
                forall|k: int, j: int|
                    0 <= k < table.len() && 0 <= j < table@[k].1.len() ==> {
                        let c = (#[trigger] table@[k].1@[j]).0;
                        c < DECK_SIZE && open_in(self.locations@[c as int], table@[k].0)
                    },
                forall|k: int, i: int, j: int|
                    0 <= k < table.len() && 0 <= i < j < table@[k].1.len() ==> (#[trigger] table@[k].1@[i]).0 < (
                    #[trigger] table@[k].1@[j]).0,
                forall|c: int|
                    0 <= c < DECK_SIZE && open_below(#[trigger] self.locations@[c], order as int) ==> exists|k: int, j: int|
                        0 <= k < table.len() && 0 <= j < table@[k].1.len() && (#[trigger] table@[k].1@[j]).0 == c,
            decreases self.next_order - order,
        {
            let mut cards: Vec<CardId> = Vec::new();
            let mut c: usize = 0;
            while c < DECK_SIZE
                invariant
                    self@.wf(),
                    c <= DECK_SIZE,
                    forall|j: int| 0 <= j < cards.len() ==> {
                        let d = (#[trigger] cards@[j]).0;
                        d < c && open_in(self.locations@[d as int], order)
                    },
                    forall|i: int, j: int| 0 <= i < j < cards.len() ==> (#[trigger] cards@[i]).0 < (#[trigger] cards@[j]).0,
                    forall|d: int|
                        0 <= d < c && open_in(#[trigger] self.locations@[d], order) ==> exists|j: int| 0 <= j < cards.len() && (#[trigger] cards@[j]).0 == d,
                decreases DECK_SIZE - c,
            {
                let ghost prev = cards@;
                if let Location::Table { captured_by: None, order: o, .. } = self.locations[c] {
                    if o == order {
                        cards.push(CardId(c));
                    }
                }
                assert forall|d: int|
                    0 <= d < c + 1 && open_in(#[trigger] self.locations@[d], order) implies exists|j: int| 0 <= j < cards.len() && (#[trigger] cards@[j]).0 == d by {
                    if d < c {
                        let j = choose|j: int| 0 <= j < prev.len() && (#[trigger] prev[j]).0 == d;
                        assert(cards@[j] == prev[j]);
                    } else {
                        assert(cards@[cards.len() - 1].0 == d);
                    }
                }
                c = c + 1;
            }
            let ghost before = table@;
            if cards.len() > 0 {
                table.push((order, cards));
            }
            proof {
                assert forall|d: int|
                    0 <= d < DECK_SIZE && open_below(#[trigger] self.locations@[d], order + 1) implies exists|k: int, j: int|
                        0 <= k < table.len() && 0 <= j < table@[k].1.len() && (#[trigger] table@[k].1@[j]).0 == d by {
                    let o = self.locations@[d]->order;
                    if o < order {
                        let (k, j) = choose|k: int, j: int|
                            0 <= k < before.len() && 0 <= j < before[k].1.len() && (#[trigger] before[k].1@[j]).0 == d;
                        assert(table@[k] == before[k]);
                    } else {
                        let j = choose|j: int| 0 <= j < table@[table.len() - 1].1.len() && (#[trigger] table@[table.len() - 1].1@[j]).0 == d;
                    }
                }
            }
            order = order + 1;
        }
        proof {
            assert forall|c: int|
                0 <= c < DECK_SIZE && is_open(#[trigger] self.locations@[c]) implies exists|k: int, j: int|
                    0 <= k < table.len() && 0 <= j < table@[k].1.len() && (#[trigger] table@[k].1@[j]).0 == c by {
                assert(self.locations@[c]->order < self.next_order);
            }
        }
        table
    }

    /// The number of cards in the opponent's hand.
    pub fn get_opponent_num_of_card(&self) -> (r: usize)
        ensures
            r == self@.hand_count(Player::Opponent),
    {
        count_hand(&self.locations, Player::Opponent)
    }

    pub fn am_player_1(&self) -> (r: bool)
        ensures
            r == self.me_went_first,
    {
        self.me_went_first
    }

    pub fn game_stage(&self) -> (r: GameStage)
        ensures
            r == (if self@.is_over() {
                GameStage::GameOver
            } else if self.current_player == Player::Me {
                GameStage::Play
            } else {
                GameStage::Wait
            }),
    {
        if self.is_game_over() {
            GameStage::GameOver
        } else if self.current_player == Player::Me {
            GameStage::Play
        } else {
            GameStage::Wait
        }
    }

    /// How the card `card_id` is shown: cards of the open group are
    /// `JustPlayed` when they form its last combination.
    pub fn card_frontend_state(&self, card_id: usize) -> (r: CardFrontendState)
        requires
            card_id < self.locations.len(),
        ensures
            r == (match self.locations@[card_id as int] {
                Location::Haggis => CardFrontendState::Haggis,
                Location::Hand(Player::Opponent) => CardFrontendState::InOpponentHand,
                Location::Hand(Player::Me) => CardFrontendState::InMyHand,
                Location::Table { captured_by: None, order, .. } => if order + 1 == self.next_order {
                    CardFrontendState::JustPlayed
                } else {
                    CardFrontendState::ThisCombinationGroup
                },
                Location::Table { captured_by: Some(Player::Me), .. } => CardFrontendState::CapturedByMe,
                Location::Table { captured_by: Some(Player::Opponent), .. } => {
                    CardFrontendState::CapturedByOpponent
                },
            }),
    {
        match self.locations[card_id] {
            Location::Haggis => CardFrontendState::Haggis,
            Location::Hand(Player::Opponent) => CardFrontendState::InOpponentHand,
            Location::Hand(Player::Me) => CardFrontendState::InMyHand,
            Location::Table { captured_by: None, order, .. } => {
                if order < self.next_order && order + 1 == self.next_order {
                    CardFrontendState::JustPlayed
                } else {
                    CardFrontendState::ThisCombinationGroup
                }
            },
            Location::Table { captured_by: Some(Player::Me), .. } => CardFrontendState::CapturedByMe,
            Location::Table { captured_by: Some(Player::Opponent), .. } => {
                CardFrontendState::CapturedByOpponent
            },
        }
    }

    /// Swaps `Me` and `Opponent` everywhere: in hands, in captures, in whose
    /// turn it is and in who went first.
    pub fn switch_perspective(&mut self)
        ensures
            final(self)@ == old(self)@.switched(),
    {
        let ghost before = self@;
        let mut i: usize = 0;
        while i < self.locations.len()
            invariant
                i <= self.locations.len(),
                self.locations.len() == before.locations.len(),
                forall|c: int|
                    0 <= c < i ==> self.locations@[c] == switched_location(#[trigger] before.locations[c]),
                forall|c: int|
                    i <= c < self.locations.len() ==> self.locations@[c] == #[trigger] before.locations[c],
                self.current_player == before.current_player,
                self.me_went_first == before.me_went_first,
                self.last_combination_type == before.last_combination_type,
                self.next_order == before.next_order,
            decreases self.locations.len() - i,
        {
            let l = match self.locations[i] {
                Location::Hand(p) => Location::Hand(p.other()),
                Location::Table { captured_by: Some(p), order, in_last_combination_before_pass } => {
                    Location::Table {
                        captured_by: Some(p.other()),
                        order,
                        in_last_combination_before_pass,
                    }
                },
                l => l,
            };
            self.locations.set(i, l);
            i = i + 1;
        }
        self.current_player = self.current_player.other();
        self.me_went_first = !self.me_went_first;
        assert(self@.locations =~= before.switched().locations);
    }
}

/// Capturing moves no card out of a hand or into one.
pub proof fn lemma_capture_keeps_hands(g: GameView, p: Player)
    ensures
        g.capture().hand_count(p) == g.hand_count(p),
{
    lemma_count_captured(g.locations, g.capturer(), g.next_order, p);
}

proof fn lemma_count_captured(locs: Seq<Location>, q: Player, next_order: usize, p: Player)
    ensures
        count_where(
            locs.map_values(|l: Location| captured_location(l, q, next_order)),
            hand_of(p),
        ) == count_where(locs, hand_of(p)),
    decreases locs.len(),
{
    let f = |l: Location| captured_location(l, q, next_order);
    if locs.len() > 0 {
        lemma_count_captured(locs.drop_last(), q, next_order, p);
        assert(locs.map_values(f).drop_last() =~= locs.drop_last().map_values(f));
    }
}

/// A bomb may follow a bomb exactly when its rank is higher; nothing else
/// may follow a bomb.
pub proof fn lemma_bomb_order(g: GameView, ids: Seq<usize>, last: usize)
    requires
        g.last_combination_type == Some(CombinationType::Bomb(last)),
        ids.len() > 0,
    ensures
        combination_type_of(ids) matches Some(CombinationType::Bomb(b)) ==> (g.can_play(ids) <==> b
            > last),
        !(combination_type_of(ids) matches Some(CombinationType::Bomb(_))) ==> !g.can_play(ids),
{
}

/// When my hand is empty, I score five points per card left in the
/// opponent's hand, the points of the cards in that hand and in the
/// Haggis, and the points of the cards I captured, the last group
/// included; the opponent scores only the cards they captured.
pub proof fn lemma_score_when_my_hand_is_empty(g: GameView)
    requires
        g.hand_count(Player::Me) == 0,
    ensures
        g.scored() == g.capture(),
        g.scored().scores().0 == 5 * g.hand_count(Player::Opponent) + points_where(
            g.capture().locations,
            not_played(),
        ) + points_where(g.capture().locations, captured_by_player(Player::Me)),
        g.scored().scores().1 == points_where(
            g.capture().locations,
            captured_by_player(Player::Opponent),
        ),
{
    lemma_capture_keeps_hands(g, Player::Me);
    lemma_capture_keeps_hands(g, Player::Opponent);
}

/// Deals the cards into `locations`, all of which start in the Haggis.
fn deal_into(locations: &mut Vec<Location>, shuffled: &Vec<usize>)
    requires
        is_shuffle(shuffled@),
        old(locations).len() == DECK_SIZE,
        forall|d: int| 0 <= d < DECK_SIZE ==> #[trigger] old(locations)@[d] == Location::Haggis,
    ensures
        final(locations).len() == DECK_SIZE,
        forall|c: int| 0 <= c < DECK_SIZE ==> final(locations)@[c] == dealt_location(shuffled@, c),
        forall|c: int| 0 <= c < DECK_SIZE ==> !(#[trigger] final(locations)@[c] is Table),
{
    let ghost order = shuffled@;
    let h = INIT_HAND_SIZE_WO_WILDCARD;
    let mut k: usize = 0;
    while k < 2 * h
        invariant
            k <= 2 * h,
            h == INIT_HAND_SIZE_WO_WILDCARD,
            is_shuffle(order),
            order == shuffled@,
            locations.len() == DECK_SIZE,
            forall|c: int|
                0 <= c < DECK_SIZE && (exists|j: int| 0 <= j < k && j < h && order[j] == c) ==> #[trigger] locations@[c] == Location::Hand(Player::Me),
            forall|c: int|
                0 <= c < DECK_SIZE && (exists|j: int| h <= j < k && order[j] == c) ==> #[trigger] locations@[c] == Location::Hand(Player::Opponent),
            forall|c: int|
                0 <= c < DECK_SIZE && !(exists|j: int| 0 <= j < k && order[j] == c) ==> #[trigger] locations@[c] == Location::Haggis,
        decreases 2 * h - k,
    {
        let id = shuffled[k];
        let owner = if k < h {
            Player::Me
        } else {
            Player::Opponent
        };
        let ghost prev = locations@;
        locations.set(id, Location::Hand(owner));
        assert forall|c: int| 0 <= c < DECK_SIZE && c != id as int implies #[trigger] locations@[c] == prev[c] by {}
        assert forall|j: int| 0 <= j < k implies #[trigger] order[j] != id by {
            assert(order[k as int] == id);
        }
        k = k + 1;
    }
    let mut c: usize = NUM_NORMAL;
    while c < DECK_SIZE
        invariant
            NUM_NORMAL <= c <= DECK_SIZE,
            is_shuffle(order),
            order == shuffled@,
            locations.len() == DECK_SIZE,
            forall|d: int|
                0 <= d < NUM_NORMAL ==> #[trigger] locations@[d] == dealt_location(order, d),
            forall|d: int|
                NUM_NORMAL <= d < c ==> #[trigger] locations@[d] == dealt_location(order, d),
        decreases DECK_SIZE - c,
    {
        if c < NUM_NORMAL + NUM_WILDCARDS_PER_PLAYER {
            locations.set(c, Location::Hand(Player::Me));
        } else {
            locations.set(c, Location::Hand(Player::Opponent));
        }
        c = c + 1;
    }
}

} // verus!
