//! The rules of one simulated solitaire game, as mathematics: the deal, the
//! mulligan, and each step of a turn. `game_engine` is proved to follow them.

use vstd::prelude::*;
use crate::mana_pool::{ManaPool, min_int};
use crate::rng::{draw_below, next_state};
use crate::types::{advantage, RecordView, SimCard, SimMechanic};

verus! {

/// Most cards a deck can hold in the simulation.
pub const MAX_DECK: usize = 128;

/// Most cards a hand can hold.
pub const MAX_HAND: usize = 8;

/// Cards in an opening hand.
pub const OPENING_HAND: usize = 7;

/// Most mulligans a player takes.
pub const MAX_MULLIGANS: u8 = 2;

/// Most mechanic groups that are tracked.
pub const MAX_FORMATIONS: usize = 32;

/// Cards of a deck of `cards_len` cards that take part in the game.
pub open spec fn deck_size(cards_len: int) -> int {
    min_int(cards_len, MAX_DECK as int)
}

/// Card indices `0..n` in order.
pub open spec fn identity_deck(n: nat) -> Seq<u8> {
    Seq::new(n, |i: int| i as u8)
}

/// `deck` with the entries at `i` and `j` exchanged.
pub open spec fn swap(deck: Seq<u8>, i: int, j: int) -> Seq<u8> {
    deck.update(i, deck[j]).update(j, deck[i])
}

/// Fisher-Yates from position `i` down to position 1: position `i` is
/// exchanged with a position drawn uniformly from `0..=i`.
pub open spec fn shuffle_from(deck: Seq<u8>, state: u32, i: int) -> (Seq<u8>, u32)
    decreases i,
{
    if i <= 0 {
        (deck, state)
    } else {
        let j = draw_below(state, (i + 1) as usize) as int;
        shuffle_from(swap(deck, i, j), next_state(state), i - 1)
    }
}

/// The deck and generator state after shuffling `deck` with a generator in `state`.
pub open spec fn shuffled(deck: Seq<u8>, state: u32) -> (Seq<u8>, u32) {
    shuffle_from(deck, state, deck.len() - 1)
}

/// Library, hand and flags between the deal and the first turn.
pub struct GameView {
    pub library: Seq<u8>,
    pub lib_top: int,
    pub hand: Seq<u8>,
    pub took_mulligan: bool,
    /// The opening hand that was dealt held no land.
    pub opened_landless: bool,
}

impl GameView {
    /// The state is one that the deal and the mulligans can produce for a
    /// deck of `cards_len` cards: no card is twice in the hand and the
    /// undrawn library together.
    pub open spec fn wf(&self, cards_len: int) -> bool {
        &&& self.library.len() == deck_size(cards_len)
        &&& 0 <= self.lib_top <= self.library.len()
        &&& self.hand.len() <= self.lib_top
        &&& self.hand.len() <= OPENING_HAND
        &&& forall|i: int| 0 <= i < self.library.len() ==> self.library[i] < self.library.len()
        &&& forall|i: int| 0 <= i < self.hand.len() ==> self.hand[i] < self.library.len()
        &&& forall|i: int, k: int|
            0 <= i < k < self.hand.len() ==> #[trigger] self.hand[i] != #[trigger] self.hand[k]
        &&& forall|j: int, k: int|
            self.lib_top <= j < k < self.library.len() ==> #[trigger] self.library[j]
                != #[trigger] self.library[k]
        &&& forall|i: int, j: int|
            0 <= i < self.hand.len() && self.lib_top <= j < self.library.len()
                ==> #[trigger] self.hand[i] != #[trigger] self.library[j]
    }
}

/// The game after shuffling and drawing the opening hand, with the generator
/// state that follows.
pub open spec fn spec_deal(cards: Seq<SimCard>, seed: u32) -> (GameView, u32) {
    let n = deck_size(cards.len() as int);
    let (library, state) = shuffled(identity_deck(n as nat), seed);
    let k = min_int(OPENING_HAND as int, n);
    let hand = library.take(k);
    (
        GameView {
            library,
            lib_top: k,
            hand,
            took_mulligan: false,
            opened_landless: lands_in_hand(cards, hand) == 0,
        },
        state,
    )
}

/// Position of the first land in `hand`.
pub open spec fn first_land(cards: Seq<SimCard>, hand: Seq<u8>) -> Option<int>
    decreases hand.len(),
{
    if hand.len() == 0 {
        None
    } else {
        match first_land(cards, hand.drop_last()) {
            Some(p) => Some(p),
            None => if cards[hand.last() as int].spec_is_land() {
                Some(hand.len() - 1)
            } else {
                None
            },
        }
    }
}

/// Lands in `hand`.
pub open spec fn lands_in_hand(cards: Seq<SimCard>, hand: Seq<u8>) -> int
    decreases hand.len(),
{
    if hand.len() == 0 {
        0
    } else {
        lands_in_hand(cards, hand.drop_last()) + if cards[hand.last() as int].spec_is_land() {
            1int
        } else {
            0int
        }
    }
}

/// True for a non-land card whose cost `pool` covers; with no pool, true
/// for every non-land card.
pub open spec fn castable(card: SimCard, pool: Option<ManaPool>) -> bool {
    !card.spec_is_land() && match pool {
        Some(p) => p.affords(card),
        None => true,
    }
}

/// Position of the castable card of highest mana value in `hand`; of
/// several, the last.
pub open spec fn best_castable(cards: Seq<SimCard>, hand: Seq<u8>, pool: Option<ManaPool>) -> Option<int>
    decreases hand.len(),
{
    if hand.len() == 0 {
        None
    } else {
        let prev = best_castable(cards, hand.drop_last(), pool);
        let card = cards[hand.last() as int];
        if castable(card, pool) {
            match prev {
                Some(p) => if cards[hand[p] as int].cmc <= card.cmc {
                    Some(hand.len() - 1)
                } else {
                    Some(p)
                },
                None => Some(hand.len() - 1),
            }
        } else {
            prev
        }
    }
}

/// The position found is one of the hand's, and the card there is castable.
pub proof fn lemma_best_castable_in_hand(cards: Seq<SimCard>, hand: Seq<u8>, pool: Option<ManaPool>)
    ensures
        best_castable(cards, hand, pool) matches Some(p) ==> 0 <= p < hand.len() && castable(
            cards[hand[p] as int],
            pool,
        ),
    decreases hand.len(),
{
    if hand.len() > 0 {
        lemma_best_castable_in_hand(cards, hand.drop_last(), pool);
    }
}

/// The position found is one of the hand's.
pub proof fn lemma_first_land_in_hand(cards: Seq<SimCard>, hand: Seq<u8>)
    ensures
        first_land(cards, hand) matches Some(p) ==> 0 <= p < hand.len() && cards[hand[p] as int].spec_is_land(),
    decreases hand.len(),
{
    if hand.len() > 0 {
        lemma_first_land_in_hand(cards, hand.drop_last());
    }
}

/// Castable cards in `hand`.
pub open spec fn castable_count(cards: Seq<SimCard>, hand: Seq<u8>, pool: ManaPool) -> int
    decreases hand.len(),
{
    if hand.len() == 0 {
        0
    } else {
        castable_count(cards, hand.drop_last(), pool) + if castable(
            cards[hand.last() as int],
            Some(pool),
        ) {
            1int
        } else {
            0int
        }
    }
}

/// `hand` without position `pos`, whose place the last card takes.
pub open spec fn remove_at(hand: Seq<u8>, pos: int) -> Seq<u8> {
    hand.update(pos, hand.last()).drop_last()
}

/// One mulligan: a card goes back under the drawn part of the library (the
/// highest-cost non-land if the hand has fewer than two lands, else the first
/// land; the last card if there is no such card), then one card is drawn.
pub open spec fn spec_mulligan(cards: Seq<SimCard>, g: GameView) -> GameView {
    let hand = g.hand;
    let back = if lands_in_hand(cards, hand) < 2 {
        match best_castable(cards, hand, None) {
            Some(p) => p,
            None => hand.len() - 1,
        }
    } else {
        match first_land(cards, hand) {
            Some(p) => p,
            None => hand.len() - 1,
        }
    };
    let library = g.library.update(g.lib_top - 1, hand[back]);
    let kept = remove_at(hand, back);
    if g.lib_top < library.len() && kept.len() < MAX_HAND {
        GameView {
            library,
            lib_top: g.lib_top + 1,
            hand: kept.push(library[g.lib_top]),
            took_mulligan: true,
            opened_landless: g.opened_landless,
        }
    } else {
        GameView {
            library,
            lib_top: g.lib_top,
            hand: kept,
            took_mulligan: true,
            opened_landless: g.opened_landless,
        }
    }
}

/// Everything a game in progress consists of, between two turns.
#[verifier::ext_equal]
pub struct TableView {
    pub library: Seq<u8>,
    pub lib_top: int,
    pub hand: Seq<u8>,
    /// Entry i: card i is on the battlefield.
    pub battlefield: Seq<bool>,
    /// Entry i: card i has been in the hand.
    pub seen: Seq<bool>,
    /// Index of the commander, the first card flagged as one.
    pub commander: Option<int>,
    pub commander_times_cast: u8,
    pub creatures_at_t5: u8,
    pub rec: RecordView,
}

impl TableView {
    /// Cards in the game.
    pub open spec fn n(&self) -> int {
        self.library.len() as int
    }

    /// The state is one a game of a deck of `cards_len` cards can be in.
    pub open spec fn wf(&self, cards_len: int) -> bool {
        &&& self.n() <= MAX_DECK
        &&& self.n() <= cards_len
        &&& 0 <= self.lib_top <= self.n()
        &&& self.hand.len() <= MAX_HAND
        &&& forall|i: int| 0 <= i < self.n() ==> self.library[i] < self.n()
        &&& forall|i: int| 0 <= i < self.hand.len() ==> self.hand[i] < self.n()
        &&& self.battlefield.len() == self.n()
        &&& self.seen.len() == self.n()
        &&& (self.commander matches Some(c) ==> 0 <= c < self.n())
        &&& self.commander_times_cast <= 1
        &&& (self.commander_times_cast == 1 ==> (self.commander matches Some(c)
            && self.battlefield[c]))
        &&& self.rec.total_spells_cast + self.hand.len() <= self.lib_top
            + self.commander_times_cast
        &&& self.rec.total_cards_drawn <= self.lib_top
        &&& self.rec.lands_in_play.len() == 6
        &&& self.rec.mana_available.len() == 6
        &&& self.rec.color_mask.len() == 6
        &&& self.rec.castable_count.len() == 6
        &&& self.rec.hand_size.len() == 6
        &&& self.rec.cmc_top_cast.len() == 6
        &&& self.rec.spells_cast_per_turn.len() == 6
        &&& self.rec.land_played.len() == 6
        &&& self.rec.color_first_turn.len() == 6
        &&& self.rec.formation_first_turn.len() == 32
    }
}

/// `seen` with every card of `hand` marked.
pub open spec fn mark_seen(seen: Seq<bool>, hand: Seq<u8>) -> Seq<bool>
    decreases hand.len(),
{
    if hand.len() == 0 {
        seen
    } else {
        mark_seen(seen, hand.drop_last()).update(hand.last() as int, true)
    }
}

/// Index of the first commander among the first `k` cards.
pub open spec fn first_commander(cards: Seq<SimCard>, k: int) -> Option<int>
    decreases k,
{
    if k <= 0 {
        None
    } else {
        match first_commander(cards, k - 1) {
            Some(c) => Some(c),
            None => if cards[k - 1].spec_is_commander() {
                Some(k - 1)
            } else {
                None
            },
        }
    }
}

/// The record's flags before the first turn: bit 1 for a mulligan, bit 2
/// for an opening hand without land.
pub open spec fn start_flags(g: GameView) -> u8 {
    if g.took_mulligan && g.opened_landless {
        0x06u8
    } else if g.took_mulligan {
        0x02u8
    } else if g.opened_landless {
        0x04u8
    } else {
        0u8
    }
}

/// The game at the start of turn 1: nothing on the battlefield, the hand
/// seen, and the mulligan and the landless opening recorded.
pub open spec fn table_start(cards: Seq<SimCard>, g: GameView) -> TableView {
    let n = g.library.len();
    TableView {
        library: g.library,
        lib_top: g.lib_top,
        hand: g.hand,
        battlefield: Seq::new(n, |i: int| false),
        seen: mark_seen(Seq::new(n, |i: int| false), g.hand),
        commander: first_commander(cards, n as int),
        commander_times_cast: 0,
        creatures_at_t5: 0,
        rec: RecordView { flags: start_flags(g), ..RecordView::empty() },
    }
}

/// The draw step: the top card of the library is drawn (and seen) if the
/// library is not empty; with a full hand it is lost.
pub open spec fn draw_for_turn(t: TableView) -> TableView {
    if t.lib_top < t.n() {
        let drawn = t.library[t.lib_top];
        TableView {
            lib_top: t.lib_top + 1,
            hand: if t.hand.len() < MAX_HAND { t.hand.push(drawn) } else { t.hand },
            seen: t.seen.update(drawn as int, true),
            rec: RecordView { total_cards_drawn: (t.rec.total_cards_drawn + 1) as u8, ..t.rec },
            ..t
        }
    } else {
        t
    }
}

/// Draws the top card into the hand if the library is not empty and the hand
/// is not full.
pub open spec fn draw_if_room(t: TableView) -> TableView {
    if t.lib_top < t.n() && t.hand.len() < MAX_HAND {
        let drawn = t.library[t.lib_top];
        TableView {
            lib_top: t.lib_top + 1,
            hand: t.hand.push(drawn),
            seen: t.seen.update(drawn as int, true),
            rec: RecordView { total_cards_drawn: (t.rec.total_cards_drawn + 1) as u8, ..t.rec },
            ..t
        }
    } else {
        t
    }
}

/// The land drop: the first land in the hand goes onto the battlefield.
pub open spec fn land_drop(cards: Seq<SimCard>, t: TableView) -> (TableView, bool) {
    match first_land(cards, t.hand) {
        Some(p) => (
            TableView {
                battlefield: t.battlefield.update(t.hand[p] as int, true),
                hand: remove_at(t.hand, p),
                ..t
            },
            true,
        ),
        None => (t, false),
    }
}

/// Lands among the first `k` cards that are on the battlefield.
pub open spec fn lands_on_battlefield(cards: Seq<SimCard>, bf: Seq<bool>, k: int) -> int
    decreases k,
{
    if k <= 0 {
        0
    } else {
        lands_on_battlefield(cards, bf, k - 1) + if bf[k - 1] && cards[k - 1].spec_is_land() {
            1int
        } else {
            0int
        }
    }
}

/// Creatures among the first `k` cards that are on the battlefield.
pub open spec fn creatures_on_battlefield(cards: Seq<SimCard>, bf: Seq<bool>, k: int) -> int
    decreases k,
{
    if k <= 0 {
        0
    } else {
        creatures_on_battlefield(cards, bf, k - 1) + if bf[k - 1]
            && cards[k - 1].spec_is_creature() {
            1int
        } else {
            0int
        }
    }
}

/// Total power of the creatures among the first `k` cards that are on the
/// battlefield.
pub open spec fn creature_power(cards: Seq<SimCard>, bf: Seq<bool>, k: int) -> int
    decreases k,
{
    if k <= 0 {
        0
    } else {
        creature_power(cards, bf, k - 1) + if bf[k - 1] && cards[k - 1].spec_is_creature() {
            cards[k - 1].power as int
        } else {
            0int
        }
    }
}

/// Mana from the mana-producing permanents among the first `k` cards.
pub open spec fn tapped_mana(cards: Seq<SimCard>, bf: Seq<bool>, k: int) -> ManaPool
    decreases k,
{
    if k <= 0 {
        ManaPool { w: 0, u: 0, b: 0, r: 0, g: 0, c: 0 }
    } else {
        let before = tapped_mana(cards, bf, k - 1);
        if bf[k - 1] && cards[k - 1].spec_is_mana_producing() {
            before.spec_add_from_mask(cards[k - 1].color_mask)
        } else {
            before
        }
    }
}

/// `pool` plus one colorless mana for every land among the first `k` cards
/// that is on the battlefield but not flagged as mana producing.
pub open spec fn basic_land_mana(cards: Seq<SimCard>, bf: Seq<bool>, k: int, pool: ManaPool) -> ManaPool
    decreases k,
{
    if k <= 0 {
        pool
    } else {
        let before = basic_land_mana(cards, bf, k - 1, pool);
        if bf[k - 1] && cards[k - 1].spec_is_land() && !cards[k - 1].spec_is_mana_producing() {
            ManaPool { c: before.c.saturating_add(1), ..before }
        } else {
            before
        }
    }
}

/// The mana available with the battlefield `bf`.
pub open spec fn mana_pool(cards: Seq<SimCard>, bf: Seq<bool>) -> ManaPool {
    basic_land_mana(cards, bf, bf.len() as int, tapped_mana(cards, bf, bf.len() as int))
}

/// `first` with `turn` recorded for every color of `mask` not seen before.
pub open spec fn update_color_first(first: Seq<u8>, mask: u8, turn: u8) -> Seq<u8> {
    Seq::new(
        6,
        |b: int|
            if mask & (1u8 << (b as u8)) != 0 && first[b] == 0 {
                turn
            } else {
                first[b]
            },
    )
}

/// Cards that stay on the battlefield once cast.
pub open spec fn stays_on_battlefield(card: SimCard) -> bool {
    card.spec_is_land() || card.spec_is_creature() || (card.flags & 0x04 != 0) || (card.flags & 0x08
        != 0 && !card.spec_is_land())
}

/// The main phase: while the hand holds a castable card, the one of highest
/// mana value is cast and paid for; permanents go onto the battlefield.
/// Returns the game, the pool left, the spells cast and the highest mana
/// value cast.
pub open spec fn cast_spells(cards: Seq<SimCard>, t: TableView, pool: ManaPool, spells: u8, top: u8) -> (
    TableView,
    ManaPool,
    u8,
    u8,
)
    decreases t.hand.len(),
{
    if t.hand.len() == 0 {
        (t, pool, spells, top)
    } else {
        match best_castable(cards, t.hand, Some(pool)) {
            None => (t, pool, spells, top),
            Some(p) => {
                proof {
                    lemma_best_castable_in_hand(cards, t.hand, Some(pool));
                }
                let idx = t.hand[p] as int;
                let card = cards[idx];
                let t2 = TableView {
                    battlefield: if stays_on_battlefield(card) {
                        t.battlefield.update(idx, true)
                    } else {
                        t.battlefield
                    },
                    hand: remove_at(t.hand, p),
                    rec: RecordView {
                        total_spells_cast: (t.rec.total_spells_cast + 1) as u8,
                        ..t.rec
                    },
                    ..t
                };
                cast_spells(
                    cards,
                    t2,
                    pool.spec_pay(card).unwrap(),
                    (spells + 1) as u8,
                    if top < card.cmc { card.cmc } else { top },
                )
            },
        }
    }
}

/// The commander's cost after it has been cast `times` times: two more
/// generic mana per earlier cast.
pub open spec fn commander_cost(card: SimCard, times: u8) -> SimCard {
    SimCard { mana_generic: card.mana_generic.saturating_add((times * 2) as u8), ..card }
}

/// Casting the commander from the command zone if it is not on the
/// battlefield and the pool covers its cost (the pool is not spent).
pub open spec fn commander_step(cards: Seq<SimCard>, t: TableView, pool: ManaPool, spells: u8, top: u8, turn: u8) -> (
    TableView,
    u8,
    u8,
) {
    match t.commander {
        Some(ci) => if !t.battlefield[ci] && pool.affords(
            commander_cost(cards[ci], t.commander_times_cast),
        ) {
            let cmd = cards[ci];
            let cost = cmd.cmc.saturating_add((t.commander_times_cast * 2) as u8);
            (
                TableView {
                    battlefield: t.battlefield.update(ci, true),
                    commander_times_cast: (t.commander_times_cast + 1) as u8,
                    rec: RecordView {
                        commander_cast_turn: if t.rec.commander_cast_turn == 0 {
                            turn
                        } else {
                            t.rec.commander_cast_turn
                        },
                        total_spells_cast: (t.rec.total_spells_cast + 1) as u8,
                        ..t.rec
                    },
                    ..t
                },
                (spells + 1) as u8,
                if top < cost { cost } else { top },
            )
        } else {
            (t, spells, top)
        },
        None => (t, spells, top),
    }
}

/// Combat: every creature on the battlefield deals its power.
pub open spec fn combat(cards: Seq<SimCard>, t: TableView) -> TableView {
    let damage = creature_power(cards, t.battlefield, t.n());
    TableView {
        rec: RecordView {
            damage_dealt: t.rec.damage_dealt.saturating_add(damage as u16),
            ..t.rec
        },
        ..t
    }
}

/// The turn-`turn` snapshot (turns 1-6 only).
pub open spec fn snapshot(
    rec: RecordView,
    turn: u8,
    lands: u8,
    mana_total: u8,
    color_mask: u8,
    castable: u8,
    hand_size: u8,
    top: u8,
    spells: u8,
    played: bool,
) -> RecordView {
    if 1 <= turn <= 6 {
        let i = turn - 1;
        RecordView {
            lands_in_play: rec.lands_in_play.update(i, lands),
            mana_available: rec.mana_available.update(i, mana_total),
            color_mask: rec.color_mask.update(i, color_mask),
            castable_count: rec.castable_count.update(i, castable),
            hand_size: rec.hand_size.update(i, hand_size),
            cmc_top_cast: rec.cmc_top_cast.update(i, top),
            spells_cast_per_turn: rec.spells_cast_per_turn.update(i, spells),
            land_played: rec.land_played.update(i, if played { 1u8 } else { 0u8 }),
            ..rec
        }
    } else {
        rec
    }
}

/// Bit `i` of a mask.
pub open spec fn bit(i: int) -> u32 {
    1u32 << (i as u32)
}

/// The bits among the first `k` of `mask` whose card is marked in `present`.
pub open spec fn formation_bits(mask: u32, present: Seq<bool>, k: int) -> u32
    decreases k,
{
    if k <= 0 {
        0
    } else {
        let before = formation_bits(mask, present, k - 1);
        if mask & bit(k - 1) != 0 && present[k - 1] {
            before | bit(k - 1)
        } else {
            before
        }
    }
}

/// Set bits among the first `k` bits of `x`.
pub open spec fn set_bits(x: u32, k: int) -> int
    decreases k,
{
    if k <= 0 {
        0
    } else {
        set_bits(x, k - 1) + if x & bit(k - 1) != 0 {
            1int
        } else {
            0int
        }
    }
}

/// The effect of assembling a formation whose advantage is `adv`; true when
/// the game ends with a combo win.
pub open spec fn apply_advantage(t: TableView, adv: u8, turn: u8) -> (TableView, bool) {
    if adv == advantage::CARD_DRAW {
        (draw_if_room(draw_if_room(t)), false)
    } else if adv == advantage::TOKEN_CREATION {
        (
            TableView {
                rec: RecordView { damage_dealt: t.rec.damage_dealt.saturating_add(2), ..t.rec },
                ..t
            },
            false,
        )
    } else if adv == advantage::DIRECT_DAMAGE {
        (
            TableView {
                rec: RecordView { damage_dealt: t.rec.damage_dealt.saturating_add(3), ..t.rec },
                ..t
            },
            false,
        )
    } else if adv == advantage::COMBO_WIN {
        (TableView { rec: RecordView { flags: t.rec.flags | 0x01, total_turns: turn, ..t.rec }, ..t }, true)
    } else {
        (t, false)
    }
}

/// Checks formation `m`: whether its cards were seen, are half or fully on
/// the battlefield, and, the first time it is assembled, applies its
/// advantage. True when the game ends with a combo win.
pub open spec fn check_formation(
    cards: Seq<SimCard>,
    mechanics: Seq<SimMechanic>,
    t: TableView,
    turn: u8,
    m: int,
) -> (TableView, bool) {
    let rec = t.rec;
    let mech = mechanics[m];
    if rec.formation_assembled_mask & bit(m) != 0 {
        (t, false)
    } else if mech.prereq_mask != 0 && (rec.formation_assembled_mask & mech.prereq_mask)
        != mech.prereq_mask {
        (t, false)
    } else if mech.card_mask == 0 {
        (t, false)
    } else {
        let k = min_int(t.n(), MAX_FORMATIONS as int);
        let on_bf = formation_bits(mech.card_mask, t.battlefield, k);
        let seen = formation_bits(mech.card_mask, t.seen, k);
        let required = set_bits(mech.card_mask, 32);
        let present = set_bits(on_bf, 32);
        let rec1 = RecordView {
            formation_seen_mask: if seen == mech.card_mask {
                rec.formation_seen_mask | bit(m)
            } else {
                rec.formation_seen_mask
            },
            formation_partial_mask: if required > 0 && present * 2 >= required {
                rec.formation_partial_mask | bit(m)
            } else {
                rec.formation_partial_mask
            },
            ..rec
        };
        if on_bf == mech.card_mask {
            let rec2 = RecordView {
                formation_assembled_mask: rec1.formation_assembled_mask | bit(m),
                formation_first_turn: if rec1.formation_first_turn[m] == 0 {
                    rec1.formation_first_turn.update(m, turn)
                } else {
                    rec1.formation_first_turn
                },
                ..rec1
            };
            apply_advantage(TableView { rec: rec2, ..t }, mech.advantage, turn)
        } else {
            (TableView { rec: rec1, ..t }, false)
        }
    }
}

/// Checks formations `m..count` in order, stopping at a combo win.
pub open spec fn check_formations_from(
    cards: Seq<SimCard>,
    mechanics: Seq<SimMechanic>,
    t: TableView,
    turn: u8,
    m: int,
    count: int,
) -> (TableView, bool)
    decreases count - m,
{
    if m >= count {
        (t, false)
    } else {
        let (t2, ended) = check_formation(cards, mechanics, t, turn, m);
        if ended {
            (t2, true)
        } else {
            check_formations_from(cards, mechanics, t2, turn, m + 1, count)
        }
    }
}

/// Mechanic groups that are tracked.
pub open spec fn formation_count(mechanics: Seq<SimMechanic>) -> int {
    min_int(mechanics.len() as int, MAX_FORMATIONS as int)
}

/// What the first half of a turn found: whether a land was played, the lands
/// in play, the mana available and its colors, the castable cards and the
/// hand size before casting, the spells cast and the highest mana value cast.
#[derive(Clone, Copy)]
pub struct TurnSummary {
    pub played: bool,
    pub lands: u8,
    pub mana_total: u8,
    pub color_mask: u8,
    pub castable: u8,
    pub hand_size: u8,
    pub spells: u8,
    pub top: u8,
}

/// `t` with the colors of `mask` recorded as first seen in `turn`.
pub open spec fn record_color_firsts(t: TableView, mask: u8, turn: u8) -> TableView {
    TableView {
        rec: RecordView {
            color_first_turn: update_color_first(t.rec.color_first_turn, mask, turn),
            ..t.rec
        },
        ..t
    }
}

/// The first half of a turn: draw, land drop, mana, casting, the commander
/// and combat.
pub open spec fn main_phase(cards: Seq<SimCard>, t: TableView, turn: u8) -> (TableView, TurnSummary) {
    let t1 = draw_for_turn(t);
    let (t2, played) = land_drop(cards, t1);
    let lands = lands_on_battlefield(cards, t2.battlefield, t2.n());
    let pool = mana_pool(cards, t2.battlefield);
    let mana_total = min_int(pool.sum(), 255) as u8;
    let color_mask = pool.spec_color_mask();
    let castable = castable_count(cards, t2.hand, pool);
    let t3 = record_color_firsts(t2, color_mask, turn);
    let (t4, pool2, spells, top) = cast_spells(cards, t3, pool, 0, 0);
    let (t5, spells2, top2) = commander_step(cards, t4, pool2, spells, top, turn);
    (
        combat(cards, t5),
        TurnSummary {
            played,
            lands: lands as u8,
            mana_total,
            color_mask,
            castable: castable as u8,
            hand_size: t2.hand.len() as u8,
            spells: spells2,
            top: top2,
        },
    )
}

/// A land drop is missed when no land was played and fewer lands than the
/// turn number are in play.
pub open spec fn misses_land_drop(s: TurnSummary, turn: u8) -> bool {
    !s.played && s.lands < turn
}

/// The record after a turn's peak mana, missed land drop (one per turn at
/// most) and snapshot.
pub open spec fn turn_statistics(rec: RecordView, s: TurnSummary, turn: u8) -> RecordView {
    let missed = misses_land_drop(s, turn);
    let rec7 = RecordView {
        peak_mana: if s.mana_total > rec.peak_mana { s.mana_total } else { rec.peak_mana },
        total_missed_land_drops: if missed {
            (rec.total_missed_land_drops + 1) as u8
        } else {
            rec.total_missed_land_drops
        },
        first_missed_land_turn: if missed && rec.first_missed_land_turn == 0 {
            turn
        } else {
            rec.first_missed_land_turn
        },
        ..rec
    };
    snapshot(
        rec7,
        turn,
        s.lands,
        s.mana_total,
        s.color_mask,
        s.castable,
        s.hand_size,
        s.top,
        s.spells,
        s.played,
    )
}

/// The second half of a turn: peak mana, missed land drops, the snapshot,
/// the formations and the turn count; the flag is true when the game ended
/// with a combo win.
pub open spec fn end_of_turn(
    cards: Seq<SimCard>,
    mechanics: Seq<SimMechanic>,
    t6: TableView,
    s: TurnSummary,
    turn: u8,
) -> (TableView, bool) {
    let rec8 = turn_statistics(t6.rec, s, turn);
    let (t9, ended) = check_formations_from(
        cards,
        mechanics,
        TableView { rec: rec8, ..t6 },
        turn,
        0,
        formation_count(mechanics),
    );
    if ended {
        (t9, true)
    } else {
        let t10 = if turn == 5 {
            TableView {
                creatures_at_t5: creatures_on_battlefield(cards, t9.battlefield, t9.n()) as u8,
                ..t9
            }
        } else {
            t9
        };
        (TableView { rec: RecordView { total_turns: turn, ..t10.rec }, ..t10 }, false)
    }
}

/// One turn; the flag is true when the game ended with a combo win.
pub open spec fn play_turn(cards: Seq<SimCard>, mechanics: Seq<SimMechanic>, t: TableView, turn: u8) -> (
    TableView,
    bool,
) {
    let (t6, s) = main_phase(cards, t, turn);
    end_of_turn(cards, mechanics, t6, s, turn)
}

/// Turns `turn..=max_turns`, stopping at a combo win.
pub open spec fn play_turns_from(
    cards: Seq<SimCard>,
    mechanics: Seq<SimMechanic>,
    t: TableView,
    turn: int,
    max_turns: int,
) -> (TableView, bool)
    decreases max_turns + 1 - turn,
{
    if turn > max_turns {
        (t, false)
    } else {
        let (t2, ended) = play_turn(cards, mechanics, t, turn as u8);
        if ended {
            (t2, true)
        } else {
            play_turns_from(cards, mechanics, t2, turn + 1, max_turns)
        }
    }
}

/// The record of a game that was dealt `g` and lasts at most `max_turns`
/// turns. Unless the game ended in a combo, the creature count at turn 5 is
/// kept in slot 31 of `formation_first_turn` when fewer than 32 mechanics are
/// tracked.
pub open spec fn spec_play(cards: Seq<SimCard>, mechanics: Seq<SimMechanic>, g: GameView, max_turns: u8) -> RecordView {
    let (t, ended) = play_turns_from(cards, mechanics, table_start(cards, g), 1, max_turns as int);
    if ended || formation_count(mechanics) >= 32 {
        t.rec
    } else {
        RecordView {
            formation_first_turn: t.rec.formation_first_turn.update(31, t.creatures_at_t5),
            ..t.rec
        }
    }
}

/// Creature power counts the power field alone: with no card on the
/// battlefield it is 0, and putting card `x` onto the battlefield adds its
/// power if it is a creature and nothing otherwise.
pub proof fn lemma_creature_power_counts_power(cards: Seq<SimCard>, bf: Seq<bool>, x: int, k: int)
    requires
        0 <= x < bf.len(),
        0 <= k <= bf.len(),
    ensures
        (forall|i: int| 0 <= i < bf.len() ==> !bf[i]) ==> creature_power(cards, bf, k) == 0,
        creature_power(cards, bf.update(x, true), k) == creature_power(cards, bf, k) + if x < k
            && !bf[x] && cards[x].spec_is_creature() {
            cards[x].power as int
        } else {
            0int
        },
    decreases k,
{
    if k > 0 {
        lemma_creature_power_counts_power(cards, bf, x, k - 1);
    }
}

/// Combat changes nothing but the damage dealt. With no card on the
/// battlefield it deals none, and one more creature `x` on the battlefield
/// adds its power, and neither its toughness nor anything else, to the
/// damage dealt (up to the cap of the tally).
pub proof fn lemma_combat_deals_power(cards: Seq<SimCard>, t: TableView, x: int)
    requires
        t.battlefield.len() == t.n(),
        t.n() <= MAX_DECK,
        t.n() <= cards.len(),
        0 <= x < t.n(),
        !t.battlefield[x],
    ensures
        combat(cards, t) == (TableView {
            rec: RecordView { damage_dealt: combat(cards, t).rec.damage_dealt, ..t.rec },
            ..t
        }),
        (forall|i: int| 0 <= i < t.n() ==> !t.battlefield[i]) ==> combat(cards, t).rec.damage_dealt
            == t.rec.damage_dealt,
        combat(cards, TableView { battlefield: t.battlefield.update(x, true), ..t }).rec.damage_dealt
            == min_int(
            combat(cards, t).rec.damage_dealt + if cards[x].spec_is_creature() {
                cards[x].power as int
            } else {
                0int
            },
            0xffff,
        ),
{
    lemma_creature_power_counts_power(cards, t.battlefield, x, t.n());
    lemma_creature_power_bounded(cards, t.battlefield, t.n());
    lemma_creature_power_bounded(cards, t.battlefield.update(x, true), t.n());
}

proof fn lemma_creature_power_bounded(cards: Seq<SimCard>, bf: Seq<bool>, k: int)
    ensures
        0 <= creature_power(cards, bf, k) <= 255 * if k < 0 { 0 } else { k },
    decreases k,
{
    if k > 0 {
        lemma_creature_power_bounded(cards, bf, k - 1);
    }
}

/// The hand holds a land exactly when it counts one.
proof fn lemma_some_land(cards: Seq<SimCard>, hand: Seq<u8>)
    ensures
        lands_in_hand(cards, hand) >= 0,
        (lands_in_hand(cards, hand) >= 1) == exists|i: int|
            0 <= i < hand.len() && #[trigger] cards[hand[i] as int].spec_is_land(),
    decreases hand.len(),
{
    if hand.len() > 0 {
        let h = hand.drop_last();
        lemma_some_land(cards, h);
        if exists|i: int| 0 <= i < hand.len() && #[trigger] cards[hand[i] as int].spec_is_land() {
            let i = choose|i: int| 0 <= i < hand.len() && #[trigger] cards[hand[i] as int].spec_is_land();
            if i < hand.len() - 1 {
                assert(cards[h[i] as int].spec_is_land());
            }
        }
        if exists|i: int| 0 <= i < h.len() && #[trigger] cards[h[i] as int].spec_is_land() {
            let i = choose|i: int| 0 <= i < h.len() && #[trigger] cards[h[i] as int].spec_is_land();
            assert(cards[hand[i] as int].spec_is_land());
        }
    }
}

/// The hand counts two lands or more exactly when two of its positions hold
/// lands.
pub proof fn lemma_two_lands(cards: Seq<SimCard>, hand: Seq<u8>)
    ensures
        (lands_in_hand(cards, hand) >= 2) == exists|i: int, j: int|
            0 <= i < j < hand.len() && #[trigger] cards[hand[i] as int].spec_is_land()
                && #[trigger] cards[hand[j] as int].spec_is_land(),
    decreases hand.len(),
{
    if hand.len() > 0 {
        let h = hand.drop_last();
        let last = hand.len() - 1;
        lemma_two_lands(cards, h);
        lemma_some_land(cards, h);
        if exists|i: int, j: int|
            0 <= i < j < hand.len() && #[trigger] cards[hand[i] as int].spec_is_land()
                && #[trigger] cards[hand[j] as int].spec_is_land() {
            let (i, j) = choose|i: int, j: int|
                0 <= i < j < hand.len() && #[trigger] cards[hand[i] as int].spec_is_land()
                    && #[trigger] cards[hand[j] as int].spec_is_land();
            assert(cards[h[i] as int].spec_is_land());
            if j < last {
                assert(cards[h[j] as int].spec_is_land());
            }
        }
        if exists|i: int, j: int|
            0 <= i < j < h.len() && #[trigger] cards[h[i] as int].spec_is_land()
                && #[trigger] cards[h[j] as int].spec_is_land() {
            let (i, j) = choose|i: int, j: int|
                0 <= i < j < h.len() && #[trigger] cards[h[i] as int].spec_is_land()
                    && #[trigger] cards[h[j] as int].spec_is_land();
            assert(cards[hand[i] as int].spec_is_land() && cards[hand[j] as int].spec_is_land());
        }
        if lands_in_hand(cards, h) >= 1 && cards[hand[last] as int].spec_is_land() {
            let i = choose|i: int| 0 <= i < h.len() && #[trigger] cards[h[i] as int].spec_is_land();
            assert(cards[hand[i] as int].spec_is_land());
        }
    }
}

/// The castable card found has the highest mana value of all castable cards
/// in the hand, and one is found whenever the hand holds one.
pub proof fn lemma_best_castable_is_highest(cards: Seq<SimCard>, hand: Seq<u8>, pool: Option<ManaPool>)
    ensures
        (exists|i: int| 0 <= i < hand.len() && #[trigger] castable(cards[hand[i] as int], pool))
            ==> best_castable(cards, hand, pool) is Some,
        best_castable(cards, hand, pool) matches Some(p) ==> forall|i: int|
            0 <= i < hand.len() && #[trigger] castable(cards[hand[i] as int], pool)
                ==> cards[hand[i] as int].cmc <= cards[hand[p] as int].cmc,
    decreases hand.len(),
{
    if hand.len() > 0 {
        let h = hand.drop_last();
        lemma_best_castable_is_highest(cards, h, pool);
        lemma_best_castable_in_hand(cards, h, pool);
        if exists|i: int| 0 <= i < hand.len() && #[trigger] castable(cards[hand[i] as int], pool) {
            let i = choose|i: int| 0 <= i < hand.len() && #[trigger] castable(cards[hand[i] as int], pool);
            if i < hand.len() - 1 {
                assert(castable(cards[h[i] as int], pool));
            }
        }
        match best_castable(cards, hand, pool) {
            Some(p) => {
                assert forall|i: int|
                    0 <= i < hand.len() && #[trigger] castable(cards[hand[i] as int], pool) implies cards[hand[i] as int].cmc
                    <= cards[hand[p] as int].cmc by {
                    if i < hand.len() - 1 {
                        assert(castable(cards[h[i] as int], pool));
                        assert(h[i] == hand[i]);
                    }
                }
            },
            None => {},
        }
    }
}

/// The land found is the first land of the hand, and one is found whenever
/// the hand holds one.
pub proof fn lemma_first_land_is_first(cards: Seq<SimCard>, hand: Seq<u8>)
    ensures
        (exists|i: int| 0 <= i < hand.len() && #[trigger] cards[hand[i] as int].spec_is_land())
            ==> first_land(cards, hand) is Some,
        first_land(cards, hand) matches Some(p) ==> forall|k: int|
            0 <= k < p ==> !#[trigger] cards[hand[k] as int].spec_is_land(),
    decreases hand.len(),
{
    if hand.len() > 0 {
        let h = hand.drop_last();
        lemma_first_land_is_first(cards, h);
        lemma_first_land_in_hand(cards, h);
        if exists|i: int| 0 <= i < hand.len() && #[trigger] cards[hand[i] as int].spec_is_land() {
            let i = choose|i: int| 0 <= i < hand.len() && #[trigger] cards[hand[i] as int].spec_is_land();
            if i < hand.len() - 1 {
                assert(cards[h[i] as int].spec_is_land());
            }
        }
        match first_land(cards, hand) {
            Some(p) => {
                assert forall|k: int| 0 <= k < p implies !#[trigger] cards[hand[k] as int].spec_is_land() by {
                    assert(h[k] == hand[k]);
                    if first_land(cards, h) is None {
                        if cards[h[k] as int].spec_is_land() {
                            assert(first_land(cards, h) is Some);
                        }
                    }
                }
            },
            None => {},
        }
    }
}

/// A mulligan sends a card of the hand back to the library, at the last
/// drawn position. When no two cards of the hand are lands and the hand
/// holds a spell, that card is a spell of the highest mana value in the hand
/// and every land of the hand stays in it; when two cards or more are lands,
/// it is the first land of the hand.
pub proof fn lemma_mulligan_sends_back_the_worst(cards: Seq<SimCard>, g: GameView)
    requires
        g.wf(cards.len() as int),
        g.hand.len() > 0,
    ensures
        ({
            let g2 = spec_mulligan(cards, g);
            let hand = g.hand;
            let back = g2.library[g.lib_top - 1];
            &&& exists|i: int| 0 <= i < hand.len() && #[trigger] hand[i] == back
            &&& (!(exists|i: int, j: int|
                0 <= i < j < hand.len() && #[trigger] cards[hand[i] as int].spec_is_land()
                    && #[trigger] cards[hand[j] as int].spec_is_land()) && (exists|i: int|
                0 <= i < hand.len() && !#[trigger] cards[hand[i] as int].spec_is_land())) ==> {
                &&& !cards[back as int].spec_is_land()
                &&& forall|i: int|
                    0 <= i < hand.len() && !#[trigger] cards[hand[i] as int].spec_is_land()
                        ==> cards[hand[i] as int].cmc <= cards[back as int].cmc
                &&& forall|i: int|
                    0 <= i < hand.len() && #[trigger] cards[hand[i] as int].spec_is_land()
                        ==> g2.hand.contains(hand[i])
            }
            &&& (exists|i: int, j: int|
                0 <= i < j < hand.len() && #[trigger] cards[hand[i] as int].spec_is_land()
                    && #[trigger] cards[hand[j] as int].spec_is_land()) ==> exists|i: int|
                0 <= i < hand.len() && #[trigger] hand[i] == back && cards[back as int].spec_is_land()
                    && forall|k: int| 0 <= k < i ==> !#[trigger] cards[hand[k] as int].spec_is_land()
        }),
{
    let hand = g.hand;
    let last = hand.len() - 1;
    lemma_two_lands(cards, hand);
    lemma_best_castable_is_highest(cards, hand, None);
    lemma_best_castable_in_hand(cards, hand, None);
    lemma_first_land_is_first(cards, hand);
    lemma_first_land_in_hand(cards, hand);
    let g2 = spec_mulligan(cards, g);
    let back_pos = if lands_in_hand(cards, hand) < 2 {
        match best_castable(cards, hand, None) {
            Some(p) => p,
            None => last,
        }
    } else {
        match first_land(cards, hand) {
            Some(p) => p,
            None => last,
        }
    };
    assert(0 <= back_pos < hand.len());
    assert(g2.library[g.lib_top - 1] == hand[back_pos]);
    let kept = remove_at(hand, back_pos);
    assert forall|i: int|
        0 <= i < hand.len() && #[trigger] cards[hand[i] as int].spec_is_land() && !cards[hand[back_pos] as int].spec_is_land()
        implies g2.hand.contains(hand[i]) by {
        assert(i != back_pos);
        if i == last {
            assert(kept[back_pos] == hand[i]);
            assert(g2.hand[back_pos] == hand[i]);
        } else {
            assert(kept[i] == hand[i]);
            assert(g2.hand[i] == hand[i]);
        }
    }
    if exists|i: int| 0 <= i < hand.len() && !#[trigger] cards[hand[i] as int].spec_is_land() {
        let i = choose|i: int| 0 <= i < hand.len() && !#[trigger] cards[hand[i] as int].spec_is_land();
        assert(castable(cards[hand[i] as int], None));
    }
    assert forall|i: int|
        0 <= i < hand.len() && !#[trigger] cards[hand[i] as int].spec_is_land() implies castable(
        cards[hand[i] as int],
        None,
    ) by {}
}

/// Every card on battlefield `a` is on battlefield `b`.
pub open spec fn grows(a: Seq<bool>, b: Seq<bool>) -> bool {
    &&& b.len() == a.len()
    &&& forall|i: int| 0 <= i < a.len() && a[i] ==> b[i]
}

/// The statistics that record each turn's outcome are the same in `a` and `b`.
pub open spec fn same_turn_statistics(a: RecordView, b: RecordView) -> bool {
    &&& a.lands_in_play == b.lands_in_play
    &&& a.mana_available == b.mana_available
    &&& a.color_mask == b.color_mask
    &&& a.castable_count == b.castable_count
    &&& a.hand_size == b.hand_size
    &&& a.cmc_top_cast == b.cmc_top_cast
    &&& a.spells_cast_per_turn == b.spells_cast_per_turn
    &&& a.land_played == b.land_played
    &&& a.peak_mana == b.peak_mana
    &&& a.total_missed_land_drops == b.total_missed_land_drops
    &&& a.first_missed_land_turn == b.first_missed_land_turn
    &&& a.total_turns == b.total_turns
}

/// What the record of every game keeps consistent, over the turns it has
/// played (`total_turns`), of which the first six are snapshot:
/// - lands in play are cumulative;
/// - the peak mana is at least the mana of every snapshot turn;
/// - a snapshot hand holds at most `MAX_HAND` cards, of which at most all are
///   castable, and `land_played` is 0 or 1;
/// - a snapshot turn without spells cast has no highest mana value cast;
/// - a snapshot's colors lie among the six of W, U, B, R, G and C;
/// - no more land drops are missed than turns are played;
/// - the first missed land drop is recorded exactly when a land drop was
///   missed, lies among the turns played, is no later than any snapshot turn
///   without a land drop and with fewer lands than the turn number, and, if it
///   is a snapshot turn, is such a turn;
/// - every color of a snapshot's mana was first available on or before that
///   turn, and a first-availability turn among the snapshots has that color;
/// - the commander was cast during the turns played, and in a snapshot turn
///   in which it was first cast at least one spell was cast.
pub open spec fn record_laws(rec: RecordView) -> bool {
    let k = min_int(rec.total_turns as int, 6);
    let first = rec.first_missed_land_turn as int;
    let cmd = rec.commander_cast_turn as int;
    &&& forall|i: int, j: int|
        0 <= i <= j < k ==> #[trigger] rec.lands_in_play[i] <= #[trigger] rec.lands_in_play[j]
    &&& forall|i: int| 0 <= i < k ==> #[trigger] rec.mana_available[i] <= rec.peak_mana
    &&& forall|i: int| 0 <= i < k ==> #[trigger] rec.hand_size[i] <= MAX_HAND
    &&& forall|i: int| 0 <= i < k ==> #[trigger] rec.castable_count[i] <= rec.hand_size[i]
    &&& forall|i: int| 0 <= i < k ==> #[trigger] rec.land_played[i] <= 1
    &&& forall|i: int|
        0 <= i < k && #[trigger] rec.spells_cast_per_turn[i] == 0 ==> rec.cmc_top_cast[i] == 0
    &&& forall|i: int| 0 <= i < k ==> #[trigger] rec.color_mask[i] < 64
    &&& rec.total_missed_land_drops <= rec.total_turns
    &&& (rec.total_missed_land_drops == 0 <==> rec.first_missed_land_turn == 0)
    &&& rec.first_missed_land_turn <= rec.total_turns
    &&& forall|i: int|
        0 <= i < k && #[trigger] rec.land_played[i] == 0 && rec.lands_in_play[i] < i + 1 ==> 1
            <= first <= i + 1
    &&& (1 <= first <= k ==> rec.land_played[first - 1] == 0 && rec.lands_in_play[first - 1] < first)
    &&& forall|c: int| 0 <= c < 6 ==> #[trigger] rec.color_first_turn[c] <= rec.total_turns
    &&& forall|i: int, c: int|
        0 <= i < k && 0 <= c < 6 && #[trigger] rec.color_mask[i] & (1u8 << (c as u8)) != 0
            ==> 1 <= #[trigger] rec.color_first_turn[c] <= i + 1
    &&& forall|c: int|
        0 <= c < 6 && 1 <= #[trigger] rec.color_first_turn[c] <= k ==> rec.color_mask[rec.color_first_turn[c]
            - 1] & (1u8 << (c as u8)) != 0
    &&& rec.commander_cast_turn <= rec.total_turns
    &&& (1 <= cmd <= k ==> rec.spells_cast_per_turn[cmd - 1] >= 1)
}

/// The record laws read only the per-turn statistics, the first turns of the
/// colors and the commander's cast turn.
pub proof fn lemma_record_laws_read(a: RecordView, b: RecordView)
    requires
        same_turn_statistics(a, b),
        a.color_first_turn == b.color_first_turn,
        a.commander_cast_turn == b.commander_cast_turn,
    ensures
        record_laws(a) == record_laws(b),
{
}

/// What the first half of turn `turn` guarantees of the record `rec` it
/// leaves and of its summary `s`, against the record `prev` the turn began
/// with: the per-turn statistics are untouched, colors are first seen only
/// in this turn and only if available, lands only grow, the commander's
/// first cast comes with a spell, and the summary's counts are consistent.
pub open spec fn turn_progress(prev: RecordView, rec: RecordView, s: TurnSummary, turn: u8) -> bool {
    &&& turn >= 1
    &&& record_laws(prev)
    &&& prev.total_turns == turn - 1
    &&& same_turn_statistics(prev, rec)
    &&& forall|c: int|
        0 <= c < 6 ==> (#[trigger] rec.color_first_turn[c] == prev.color_first_turn[c]
            || rec.color_first_turn[c] == turn)
    &&& forall|c: int|
        0 <= c < 6 && prev.color_first_turn[c] != 0 ==> #[trigger] rec.color_first_turn[c]
            == prev.color_first_turn[c]
    &&& forall|c: int|
        0 <= c < 6 && s.color_mask & (1u8 << (c as u8)) != 0 ==> #[trigger] rec.color_first_turn[c]
            != 0
    &&& forall|c: int|
        0 <= c < 6 && #[trigger] rec.color_first_turn[c] != prev.color_first_turn[c]
            ==> s.color_mask & (1u8 << (c as u8)) != 0
    &&& forall|i: int| 0 <= i < min_int(turn - 1, 6) ==> #[trigger] prev.lands_in_play[i] <= s.lands
    &&& (rec.commander_cast_turn == prev.commander_cast_turn || (prev.commander_cast_turn == 0
        && rec.commander_cast_turn == turn && s.spells >= 1))
    &&& s.hand_size <= MAX_HAND
    &&& s.castable <= s.hand_size
    &&& (s.spells == 0 ==> s.top == 0)
    &&& s.color_mask < 64
}

/// A turn's statistics keep the record laws, given what the first half of
/// the turn guarantees.
pub proof fn lemma_turn_statistics_laws(prev: RecordView, rec: RecordView, s: TurnSummary, turn: u8)
    requires
        turn_progress(prev, rec, s, turn),
        rec.lands_in_play.len() == 6,
        rec.mana_available.len() == 6,
        rec.color_mask.len() == 6,
        rec.castable_count.len() == 6,
        rec.hand_size.len() == 6,
        rec.cmc_top_cast.len() == 6,
        rec.spells_cast_per_turn.len() == 6,
        rec.land_played.len() == 6,
        rec.color_first_turn.len() == 6,
    ensures
        record_laws(RecordView { total_turns: turn, ..turn_statistics(rec, s, turn) }),
{
    let r = RecordView { total_turns: turn, ..turn_statistics(rec, s, turn) };
    let k = min_int(turn as int, 6);
    let kp = min_int(turn - 1, 6);
    let t = turn - 1;
    assert forall|i: int, j: int| 0 <= i <= j < k implies #[trigger] r.lands_in_play[i]
        <= #[trigger] r.lands_in_play[j] by {
        if j == t {
            assert(r.lands_in_play[j] == s.lands);
            if i < t {
                assert(r.lands_in_play[i] == prev.lands_in_play[i]);
            }
        } else {
            assert(r.lands_in_play[j] == prev.lands_in_play[j]);
            assert(r.lands_in_play[i] == prev.lands_in_play[i]);
        }
    }
    assert forall|i: int| 0 <= i < k implies #[trigger] r.mana_available[i] <= r.peak_mana by {
        if i < t {
            assert(r.mana_available[i] == prev.mana_available[i]);
        }
    }
    assert forall|i: int| 0 <= i < k implies #[trigger] r.hand_size[i] <= MAX_HAND by {
        if i < t {
            assert(r.hand_size[i] == prev.hand_size[i]);
        }
    }
    assert forall|i: int| 0 <= i < k implies #[trigger] r.land_played[i] <= 1 by {
        if i < t {
            assert(r.land_played[i] == prev.land_played[i]);
        }
    }
    assert forall|i: int| 0 <= i < k implies #[trigger] r.castable_count[i] <= r.hand_size[i] by {
        if i < t {
            assert(r.castable_count[i] == prev.castable_count[i]);
            assert(r.hand_size[i] == prev.hand_size[i]);
        }
    }
    assert forall|i: int| 0 <= i < k && #[trigger] r.spells_cast_per_turn[i] == 0 implies r.cmc_top_cast[i]
        == 0 by {
        if i < t {
            assert(r.spells_cast_per_turn[i] == prev.spells_cast_per_turn[i]);
            assert(r.cmc_top_cast[i] == prev.cmc_top_cast[i]);
        }
    }
    assert forall|i: int| 0 <= i < k implies #[trigger] r.color_mask[i] < 64 by {
        if i < t {
            assert(r.color_mask[i] == prev.color_mask[i]);
        }
    }
    assert forall|i: int|
        0 <= i < k && #[trigger] r.land_played[i] == 0 && r.lands_in_play[i] < i + 1 implies 1
        <= r.first_missed_land_turn <= i + 1 by {
        if i < t {
            assert(r.land_played[i] == prev.land_played[i]);
            assert(r.lands_in_play[i] == prev.lands_in_play[i]);
        }
    }
    let first = r.first_missed_land_turn as int;
    if 1 <= first <= k {
        if first - 1 < t {
            assert(prev.first_missed_land_turn == first);
            assert(r.land_played[first - 1] == prev.land_played[first - 1]);
            assert(r.lands_in_play[first - 1] == prev.lands_in_play[first - 1]);
        }
    }
    assert forall|i: int, c: int|
        0 <= i < k && 0 <= c < 6 && #[trigger] r.color_mask[i] & (1u8 << (c as u8)) != 0 implies 1
        <= #[trigger] r.color_first_turn[c] <= i + 1 by {
        if i < t {
            assert(r.color_mask[i] == prev.color_mask[i]);
            assert(prev.color_mask[i] & (1u8 << (c as u8)) != 0);
            assert(1 <= prev.color_first_turn[c] <= i + 1);
        } else {
            assert(r.color_mask[i] == s.color_mask);
        }
    }
    assert forall|c: int| 0 <= c < 6 && 1 <= #[trigger] r.color_first_turn[c] <= k implies r.color_mask[r.color_first_turn[c]
        - 1] & (1u8 << (c as u8)) != 0 by {
        let f = r.color_first_turn[c] as int;
        if f == turn {
            if prev.color_first_turn[c] != 0 {
                assert(prev.color_first_turn[c] <= prev.total_turns);
            }
            assert(r.color_mask[f - 1] == s.color_mask);
        } else {
            assert(rec.color_first_turn[c] == prev.color_first_turn[c]);
            assert(1 <= prev.color_first_turn[c] <= kp);
            assert(prev.color_mask[f - 1] & (1u8 << (c as u8)) != 0);
            assert(r.color_mask[f - 1] == prev.color_mask[f - 1]);
        }
    }
    let cmd = r.commander_cast_turn as int;
    if 1 <= cmd <= k {
        if cmd - 1 < t {
            assert(r.spells_cast_per_turn[cmd - 1] == prev.spells_cast_per_turn[cmd - 1]);
        }
    }
}

/// The record laws, and no snapshot counts more lands than are now in play.
pub open spec fn table_laws(cards: Seq<SimCard>, t: TableView) -> bool {
    &&& record_laws(t.rec)
    &&& forall|i: int|
        0 <= i < min_int(t.rec.total_turns as int, 6) ==> #[trigger] t.rec.lands_in_play[i]
            <= lands_on_battlefield(cards, t.battlefield, t.n())
}

/// More cards on the battlefield never means fewer lands.
pub proof fn lemma_lands_grow(cards: Seq<SimCard>, a: Seq<bool>, b: Seq<bool>, k: int)
    requires
        grows(a, b),
        k <= a.len(),
    ensures
        lands_on_battlefield(cards, a, k) <= lands_on_battlefield(cards, b, k),
    decreases k,
{
    if k > 0 {
        lemma_lands_grow(cards, a, b, k - 1);
    }
}

/// Casting changes only the spell tally of the record and only adds to the
/// battlefield.
pub proof fn lemma_cast_spells_frame(cards: Seq<SimCard>, t: TableView, pool: ManaPool, spells: u8, top: u8)
    requires
        forall|i: int| 0 <= i < t.hand.len() ==> t.hand[i] < t.battlefield.len(),
    ensures
        ({
            let (t2, p2, s2, c2) = cast_spells(cards, t, pool, spells, top);
            &&& t2.rec == RecordView { total_spells_cast: t2.rec.total_spells_cast, ..t.rec }
            &&& grows(t.battlefield, t2.battlefield)
        }),
    decreases t.hand.len(),
{
    if t.hand.len() > 0 {
        lemma_best_castable_in_hand(cards, t.hand, Some(pool));
        match best_castable(cards, t.hand, Some(pool)) {
            None => {},
            Some(p) => {
                let idx = t.hand[p] as int;
                let card = cards[idx];
                let t2 = TableView {
                    battlefield: if stays_on_battlefield(card) {
                        t.battlefield.update(idx, true)
                    } else {
                        t.battlefield
                    },
                    hand: remove_at(t.hand, p),
                    rec: RecordView {
                        total_spells_cast: (t.rec.total_spells_cast + 1) as u8,
                        ..t.rec
                    },
                    ..t
                };
                assert forall|i: int| 0 <= i < t2.hand.len() implies t2.hand[i]
                    < t2.battlefield.len() by {
                    if i == p {
                        assert(t2.hand[i] == t.hand.last());
                    } else {
                        assert(t2.hand[i] == t.hand[i]);
                    }
                }
                lemma_cast_spells_frame(
                    cards,
                    t2,
                    pool.spec_pay(card).unwrap(),
                    (spells + 1) as u8,
                    if top < card.cmc { card.cmc } else { top },
                );
            },
        }
    }
}

/// Casting counts each spell it casts: the tally never falls, rises by at
/// most the cards in hand, and where it did not rise the highest mana value
/// cast is unchanged.
pub proof fn lemma_cast_spells_tally(cards: Seq<SimCard>, t: TableView, pool: ManaPool, spells: u8, top: u8)
    requires
        spells + t.hand.len() <= 255,
    ensures
        ({
            let (t2, p2, s2, c2) = cast_spells(cards, t, pool, spells, top);
            &&& spells <= s2 <= spells + t.hand.len()
            &&& (s2 == spells ==> c2 == top)
        }),
    decreases t.hand.len(),
{
    if t.hand.len() > 0 {
        lemma_best_castable_in_hand(cards, t.hand, Some(pool));
        match best_castable(cards, t.hand, Some(pool)) {
            None => {},
            Some(p) => {
                let idx = t.hand[p] as int;
                let card = cards[idx];
                let t2 = TableView {
                    battlefield: if stays_on_battlefield(card) {
                        t.battlefield.update(idx, true)
                    } else {
                        t.battlefield
                    },
                    hand: remove_at(t.hand, p),
                    rec: RecordView {
                        total_spells_cast: (t.rec.total_spells_cast + 1) as u8,
                        ..t.rec
                    },
                    ..t
                };
                lemma_cast_spells_tally(
                    cards,
                    t2,
                    pool.spec_pay(card).unwrap(),
                    (spells + 1) as u8,
                    if top < card.cmc { card.cmc } else { top },
                );
            },
        }
    }
}

/// Formation `m` (of the first `count`) is marked assembled exactly when the
/// turn of its first assembly is recorded.
pub open spec fn formation_laws(rec: RecordView, count: int) -> bool {
    forall|m: int|
        0 <= m < count ==> ((rec.formation_assembled_mask & bit(m) != 0)
            <==> #[trigger] rec.formation_first_turn[m] != 0)
}

proof fn lemma_bits(a: u32, m: u32, k: u32)
    requires
        m < 32,
        k < 32,
    ensures
        (a | (1u32 << m)) & (1u32 << m) != 0,
        m != k ==> (a | (1u32 << m)) & (1u32 << k) == a & (1u32 << k),
{
    assert((a | (1u32 << m)) & (1u32 << m) != 0) by (bit_vector)
        requires
            m < 32,
    ;
    assert(m != k ==> (a | (1u32 << m)) & (1u32 << k) == a & (1u32 << k)) by (bit_vector)
        requires
            m < 32,
            k < 32,
    ;
}

proof fn lemma_combo_flag(f: u8)
    ensures
        (f | 0x01) & 0x06 == f & 0x06,
{
    assert((f | 0x01) & 0x06 == f & 0x06) by (bit_vector);
}

/// Checking one formation keeps the mulligan and landless-opening flags and
/// the link between assembled formations and their first turns; it sets the
/// combo flag exactly when it ends the game, which only an assembled combo
/// formation does.
proof fn lemma_check_formation_laws(
    cards: Seq<SimCard>,
    mechanics: Seq<SimMechanic>,
    t: TableView,
    turn: u8,
    m: int,
    count: int,
)
    requires
        0 <= m < count <= 32,
        turn >= 1,
        t.rec.formation_first_turn.len() == 32,
    ensures
        ({
            let (t2, ended) = check_formation(cards, mechanics, t, turn, m);
            &&& t2.rec.flags & 0x06 == t.rec.flags & 0x06
            &&& t2.rec.formation_first_turn.len() == 32
            &&& formation_laws(t.rec, count) ==> formation_laws(t2.rec, count)
            &&& !ended ==> t2.rec.flags == t.rec.flags
            &&& ended ==> t2.rec.flags == t.rec.flags | 0x01 && mechanics[m].advantage
                == advantage::COMBO_WIN && t2.rec.formation_assembled_mask & bit(m) != 0
        }),
{
    lemma_combo_flag(t.rec.flags);
    let (t2, ended) = check_formation(cards, mechanics, t, turn, m);
    assert forall|k: int| 0 <= k < count implies (t2.rec.formation_assembled_mask & bit(k) != 0
        <==> #[trigger] t2.rec.formation_first_turn[k] != 0) || !formation_laws(t.rec, count) by {
        lemma_bits(t.rec.formation_assembled_mask, m as u32, k as u32);
    }
    lemma_bits(t.rec.formation_assembled_mask, m as u32, m as u32);
}

/// Checking formations leaves the battlefield and every per-turn statistic
/// alone, except that a combo win sets the turn count to `turn`; it keeps the
/// mulligan and landless-opening flags and the link between assembled
/// formations and their first turns. The combo flag is set exactly when the
/// check ends the game, and then a combo formation among those checked is
/// assembled.
pub proof fn lemma_formations_frame(
    cards: Seq<SimCard>,
    mechanics: Seq<SimMechanic>,
    t: TableView,
    turn: u8,
    m: int,
    count: int,
)
    requires
        0 <= m,
        count <= 32,
        turn >= 1,
        t.rec.formation_first_turn.len() == 32,
    ensures
        ({
            let (t2, ended) = check_formations_from(cards, mechanics, t, turn, m, count);
            &&& t2.battlefield == t.battlefield
            &&& t2.library == t.library
            &&& t2.rec.lands_in_play == t.rec.lands_in_play
            &&& t2.rec.mana_available == t.rec.mana_available
            &&& t2.rec.color_mask == t.rec.color_mask
            &&& t2.rec.peak_mana == t.rec.peak_mana
            &&& t2.rec.total_missed_land_drops == t.rec.total_missed_land_drops
            &&& t2.rec.first_missed_land_turn == t.rec.first_missed_land_turn
            &&& t2.rec.color_first_turn == t.rec.color_first_turn
            &&& t2.rec.castable_count == t.rec.castable_count
            &&& t2.rec.hand_size == t.rec.hand_size
            &&& t2.rec.cmc_top_cast == t.rec.cmc_top_cast
            &&& t2.rec.spells_cast_per_turn == t.rec.spells_cast_per_turn
            &&& t2.rec.land_played == t.rec.land_played
            &&& t2.rec.commander_cast_turn == t.rec.commander_cast_turn
            &&& t2.rec.total_turns == if ended { turn } else { t.rec.total_turns }
            &&& t2.rec.flags & 0x06 == t.rec.flags & 0x06
            &&& formation_laws(t.rec, count) ==> formation_laws(t2.rec, count)
            &&& !ended ==> t2.rec.flags == t.rec.flags
            &&& ended ==> t2.rec.flags == t.rec.flags | 0x01 && exists|k: int|
                m <= k < count && #[trigger] mechanics[k].advantage == advantage::COMBO_WIN
                    && t2.rec.formation_assembled_mask & bit(k) != 0
        }),
    decreases count - m,
{
    if m < count {
        lemma_check_formation_laws(cards, mechanics, t, turn, m, count);
        let (t2, ended) = check_formation(cards, mechanics, t, turn, m);
        if !ended {
            lemma_formations_frame(cards, mechanics, t2, turn, m + 1, count);
        }
    }
}

} // verus!
