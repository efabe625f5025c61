//! The solitaire game: shuffle, deal, mulligan, and the turns.

use vstd::prelude::*;
use crate::game_model::{
    apply_advantage, basic_land_mana, best_castable, bit, cast_spells, castable, castable_count,
    check_formation, check_formations_from, combat, commander_cost, commander_step, creature_power,
    creatures_on_battlefield, deck_size, draw_for_turn, draw_if_room, end_of_turn, first_commander,
    first_land, formation_bits, formation_count, formation_laws, grows, identity_deck, land_drop,
    lands_in_hand, lands_on_battlefield, lemma_best_castable_in_hand, lemma_cast_spells_frame,
    lemma_cast_spells_tally, lemma_first_land_in_hand, lemma_formations_frame, lemma_lands_grow,
    main_phase, mana_pool, mark_seen, play_turn, play_turns_from, record_color_firsts, record_laws,
    remove_at, same_turn_statistics, lemma_record_laws_read, lemma_turn_statistics_laws, set_bits,
    shuffle_from, shuffled, snapshot, spec_deal, spec_mulligan, spec_play, start_flags,
    stays_on_battlefield, swap, table_laws, table_start, tapped_mana, turn_progress,
    turn_statistics, update_color_first, GameView, MAX_DECK, MAX_FORMATIONS, MAX_HAND, OPENING_HAND,
    TableView, TurnSummary,
};
use crate::land_count::{
    land_count_kept, lands_follow_drops, lemma_end_of_turn_land_count, lemma_main_phase_land_count,
    lemma_start_land_count, no_land_commander,
};
use crate::mana_pool::{ManaPool, min_int};
use crate::rng::{Rng, draw_below, lemma_state_after_next, next_state, state_after};
use crate::types::advantage;
use crate::types::{GameRecord, RecordView, SimCard, SimMechanic};

verus! {

broadcast use vstd::seq_lib::group_to_multiset_ensures;

/// Exchanging two entries keeps the deck's cards.
proof fn lemma_swap_keeps_cards(deck: Seq<u8>, i: int, j: int)
    requires
        0 <= i < deck.len(),
        0 <= j < deck.len(),
    ensures
        swap(deck, i, j).to_multiset() =~= deck.to_multiset(),
        swap(deck, i, j).len() == deck.len(),
{
    broadcast use vstd::seq_lib::to_multiset_update;
    broadcast use vstd::multiset::group_multiset_axioms;

    let d1 = deck.update(i, deck[j]);
    assert(d1[j] == deck[j] || i == j);
}

/// Shuffling keeps the deck's cards: what comes out is a permutation of what
/// went in.
pub proof fn lemma_shuffle_is_permutation(deck: Seq<u8>, state: u32)
    requires
        deck.len() <= usize::MAX,
    ensures
        shuffled(deck, state).0.to_multiset() =~= deck.to_multiset(),
        shuffled(deck, state).0.len() == deck.len(),
{
    lemma_shuffle_from_is_permutation(deck, state, deck.len() - 1);
}

proof fn lemma_shuffle_from_is_permutation(deck: Seq<u8>, state: u32, i: int)
    requires
        i < deck.len() <= usize::MAX,
    ensures
        shuffle_from(deck, state, i).0.to_multiset() =~= deck.to_multiset(),
        shuffle_from(deck, state, i).0.len() == deck.len(),
    decreases i,
{
    if i > 0 {
        let j = draw_below(state, (i + 1) as usize) as int;
        assert(0 <= j < i + 1) by {
            assert(((crate::rng::draw_u32(state) as usize) % ((i + 1) as usize)) < i + 1);
        }
        lemma_swap_keeps_cards(deck, i, j);
        lemma_shuffle_from_is_permutation(swap(deck, i, j), next_state(state), i - 1);
    }
}

/// A deck without a card twice.
pub open spec fn distinct_cards(deck: Seq<u8>) -> bool {
    forall|i: int, k: int| 0 <= i < k < deck.len() ==> #[trigger] deck[i] != #[trigger] deck[k]
}

/// Shuffling keeps a deck without a card twice.
proof fn lemma_shuffle_from_distinct(deck: Seq<u8>, state: u32, i: int)
    requires
        i < deck.len() <= usize::MAX,
        distinct_cards(deck),
    ensures
        distinct_cards(shuffle_from(deck, state, i).0),
    decreases i,
{
    if i > 0 {
        let j = draw_below(state, (i + 1) as usize) as int;
        assert(0 <= j < i + 1) by {
            assert(((crate::rng::draw_u32(state) as usize) % ((i + 1) as usize)) < i + 1);
        }
        let d = swap(deck, i, j);
        assert forall|a: int, b: int| 0 <= a < b < d.len() implies #[trigger] d[a] != #[trigger] d[b] by {
            let pa = if a == i { j } else if a == j { i } else { a };
            let pb = if b == i { j } else if b == j { i } else { b };
            assert(d[a] == deck[pa]);
            assert(d[b] == deck[pb]);
            if pa < pb {
                assert(deck[pa] != deck[pb]);
            } else {
                assert(deck[pb] != deck[pa]);
            }
        }
        lemma_shuffle_from_distinct(d, next_state(state), i - 1);
    }
}

/// Shuffling a deck of `n` cards draws from the generator `n - 1` times
/// (never for fewer than two cards).
pub proof fn lemma_shuffle_draws(deck: Seq<u8>, state: u32)
    ensures
        shuffled(deck, state).1 == state_after(
            state,
            if deck.len() <= 1 {
                0
            } else {
                (deck.len() - 1) as nat
            },
        ),
{
    lemma_shuffle_from_draws(deck, state, deck.len() - 1);
}

proof fn lemma_shuffle_from_draws(deck: Seq<u8>, state: u32, i: int)
    ensures
        shuffle_from(deck, state, i).1 == state_after(
            state,
            if i <= 0 {
                0
            } else {
                i as nat
            },
        ),
    decreases i,
{
    assert(state_after(state, 0) == state);
    if i > 0 {
        let j = draw_below(state, (i + 1) as usize) as int;
        lemma_shuffle_from_draws(swap(deck, i, j), next_state(state), i - 1);
        lemma_state_after_next(state, (i - 1) as nat);
        assert(state_after(next_state(state), 0) == next_state(state));
    }
}

/// Every entry of a shuffled deck is below `bound` when every entry of the
/// deck was.
proof fn lemma_shuffle_from_bounded(deck: Seq<u8>, state: u32, i: int, bound: int)
    requires
        i < deck.len() <= usize::MAX,
        forall|k: int| 0 <= k < deck.len() ==> deck[k] < bound,
    ensures
        forall|k: int|
            0 <= k < deck.len() ==> #[trigger] shuffle_from(deck, state, i).0[k] < bound,
        shuffle_from(deck, state, i).0.len() == deck.len(),
    decreases i,
{
    if i > 0 {
        let j = draw_below(state, (i + 1) as usize) as int;
        assert(0 <= j < i + 1) by {
            assert(((crate::rng::draw_u32(state) as usize) % ((i + 1) as usize)) < i + 1);
        }
        lemma_shuffle_from_bounded(swap(deck, i, j), next_state(state), i - 1, bound);
    }
}

/// Fisher-Yates shuffle of a deck of card indices.
pub fn shuffle(deck: &mut Vec<u8>, rng: &mut Rng)
    ensures
        (final(deck)@, final(rng)@) == shuffled(old(deck)@, old(rng)@),
{
    let n = deck.len();
    if n == 0 {
        return;
    }
    let mut i: usize = n - 1;
    while i >= 1
        invariant
            deck@.len() == n,
            i < n,
            shuffle_from(deck@, rng@, i as int) == shuffled(old(deck)@, old(rng)@),
        decreases i,
    {
        let ghost before = deck@;
        let j = rng.next_usize(i + 1);
        let a = deck[i];
        let b = deck[j];
        deck.set(i, b);
        deck.set(j, a);
        assert(deck@ =~= swap(before, i as int, j as int));
        i -= 1;
    }
}

/// An optional position as an optional integer.
pub open spec fn opt_int(o: Option<usize>) -> Option<int> {
    match o {
        Some(p) => Some(p as int),
        None => None,
    }
}

/// Every card index in `hand` names a card of `cards`.
pub open spec fn indices_below(hand: Seq<u8>, n: int) -> bool {
    forall|i: int| 0 <= i < hand.len() ==> hand[i] < n
}

/// Position of the first land in `hand`.
fn find_first_land(cards: &[SimCard], hand: &[u8]) -> (r: Option<usize>)
    requires
        indices_below(hand@, cards@.len() as int),
    ensures
        opt_int(r) == first_land(cards@, hand@),
        r matches Some(p) ==> p < hand@.len(),
{
    let mut i: usize = 0;
    while i < hand.len()
        invariant
            i <= hand@.len(),
            indices_below(hand@, cards@.len() as int),
            first_land(cards@, hand@.take(i as int)) is None,
        decreases hand@.len() - i,
    {
        let card = cards[hand[i] as usize];
        proof {
            assert(hand@.take(i + 1).drop_last() =~= hand@.take(i as int));
        }
        if card.is_land() {
            proof {
                lemma_first_land_prefix(cards@, hand@, i + 1, hand@.len() as int);
                assert(hand@.take(hand@.len() as int) =~= hand@);
            }
            return Some(i);
        }
        i += 1;
    }
    assert(hand@.take(hand@.len() as int) =~= hand@);
    None
}

proof fn lemma_first_land_prefix(cards: Seq<SimCard>, hand: Seq<u8>, k: int, m: int)
    requires
        0 <= k <= m <= hand.len(),
        first_land(cards, hand.take(k)) is Some,
    ensures
        first_land(cards, hand.take(m)) == first_land(cards, hand.take(k)),
    decreases m - k,
{
    if m > k {
        lemma_first_land_prefix(cards, hand, k, m - 1);
        assert(hand.take(m).drop_last() =~= hand.take(m - 1));
    }
}

/// Lands in `hand`.
fn count_lands_in_hand(cards: &[SimCard], hand: &[u8]) -> (r: usize)
    requires
        indices_below(hand@, cards@.len() as int),
    ensures
        r == lands_in_hand(cards@, hand@),
        r <= hand@.len(),
{
    let mut count: usize = 0;
    let mut i: usize = 0;
    while i < hand.len()
        invariant
            i <= hand@.len(),
            indices_below(hand@, cards@.len() as int),
            count == lands_in_hand(cards@, hand@.take(i as int)),
            count <= i,
        decreases hand@.len() - i,
    {
        proof {
            assert(hand@.take(i + 1).drop_last() =~= hand@.take(i as int));
        }
        if cards[hand[i] as usize].is_land() {
            count += 1;
        }
        i += 1;
    }
    assert(hand@.take(hand@.len() as int) =~= hand@);
    count
}

/// Position of the castable card of highest mana value in `hand` (the last
/// of several); `None` as the pool means every non-land card counts.
fn find_best_castable(cards: &[SimCard], hand: &[u8], pool: Option<ManaPool>) -> (r: Option<usize>)
    requires
        indices_below(hand@, cards@.len() as int),
    ensures
        opt_int(r) == best_castable(cards@, hand@, pool),
        r matches Some(p) ==> p < hand@.len(),
{
    let mut best: Option<usize> = None;
    let mut i: usize = 0;
    while i < hand.len()
        invariant
            i <= hand@.len(),
            indices_below(hand@, cards@.len() as int),
            opt_int(best) == best_castable(cards@, hand@.take(i as int), pool),
            best matches Some(p) ==> p < i,
        decreases hand@.len() - i,
    {
        let card = cards[hand[i] as usize];
        let ok = if card.is_land() {
            false
        } else {
            match pool {
                Some(p) => p.can_pay(&card),
                None => true,
            }
        };
        proof {
            assert(hand@.take(i + 1).drop_last() =~= hand@.take(i as int));
            assert(ok == castable(card, pool));
        }
        if ok {
            match best {
                Some(p) => {
                    if cards[hand[p] as usize].cmc <= card.cmc {
                        best = Some(i);
                    }
                },
                None => {
                    best = Some(i);
                },
            }
        }
        i += 1;
    }
    assert(hand@.take(hand@.len() as int) =~= hand@);
    best
}

/// The game between the deal and the first turn: the shuffled library, how
/// far it has been drawn, the hand, whether a mulligan was taken, and whether
/// the opening hand held no land.
pub struct Game {
    library: Vec<u8>,
    lib_top: usize,
    hand: Vec<u8>,
    took_mulligan: bool,
    opened_landless: bool,
}

impl View for Game {
    type V = GameView;

    closed spec fn view(&self) -> GameView {
        GameView {
            library: self.library@,
            lib_top: self.lib_top as int,
            hand: self.hand@,
            took_mulligan: self.took_mulligan,
            opened_landless: self.opened_landless,
        }
    }
}

impl Game {
    /// Shuffles the deck's first (up to 128) cards and draws the opening
    /// hand of seven.
    pub fn deal(cards: &[SimCard], rng: &mut Rng) -> (g: Game)
        ensures
            (g@, final(rng)@) == spec_deal(cards@, old(rng)@),
            g@.wf(cards@.len() as int),
            g@.library.to_multiset() =~= identity_deck(
                deck_size(cards@.len() as int) as nat,
            ).to_multiset(),
    {
        let n: usize = if cards.len() < MAX_DECK { cards.len() } else { MAX_DECK };
        let mut library: Vec<u8> = Vec::new();
        let mut i: usize = 0;
        while i < n
            invariant
                i <= n <= MAX_DECK,
                library@ =~= identity_deck(i as nat),
            decreases n - i,
        {
            library.push(i as u8);
            i += 1;
        }
        let ghost start = library@;
        shuffle(&mut library, rng);
        proof {
            lemma_shuffle_from_bounded(start, old(rng)@, start.len() - 1, n as int);
            lemma_shuffle_is_permutation(start, old(rng)@);
            lemma_shuffle_from_distinct(start, old(rng)@, start.len() - 1);
        }
        let mut hand: Vec<u8> = Vec::new();
        let mut lib_top: usize = 0;
        let mut k: usize = 0;
        while k < OPENING_HAND
            invariant
                k <= OPENING_HAND,
                library@.len() == n,
                lib_top == min_int(k as int, n as int),
                hand@ =~= library@.take(lib_top as int),
            decreases OPENING_HAND - k,
        {
            if lib_top < n && hand.len() < MAX_HAND {
                hand.push(library[lib_top]);
                lib_top += 1;
            }
            k += 1;
        }
        assert(indices_below(hand@, cards@.len() as int));
        let opened_landless = count_lands_in_hand(cards, hand.as_slice()) == 0;
        Game { library, lib_top, hand, took_mulligan: false, opened_landless }
    }

    /// Card indices in the hand.
    pub fn hand(&self) -> (h: &[u8])
        ensures
            h@ == self@.hand,
    {
        self.hand.as_slice()
    }

    /// True once a mulligan has been taken.
    pub fn took_mulligan(&self) -> (b: bool)
        ensures
            b == self@.took_mulligan,
    {
        self.took_mulligan
    }
    /// Takes one mulligan: a card goes back under the drawn part of the
    /// library and one card is drawn in its place.
    pub fn mulligan(&mut self, cards: &[SimCard])
        requires
            old(self)@.wf(cards@.len() as int),
            old(self)@.hand.len() > 0,
        ensures
            final(self)@ == spec_mulligan(cards@, old(self)@),
            final(self)@.wf(cards@.len() as int),
            final(self)@.took_mulligan,
            old(self)@.lib_top < old(self)@.library.len() ==> final(self)@.hand.len()
                == old(self)@.hand.len(),
    {
        let lands = count_lands_in_hand(cards, self.hand.as_slice());
        let back = if lands < 2 {
            match find_best_castable(cards, self.hand.as_slice(), None) {
                Some(p) => p,
                None => self.hand.len() - 1,
            }
        } else {
            match find_first_land(cards, self.hand.as_slice()) {
                Some(p) => p,
                None => self.hand.len() - 1,
            }
        };
        let card = self.hand[back];
        self.library.set(self.lib_top - 1, card);
        self.hand.swap_remove(back);
        if self.lib_top < self.library.len() && self.hand.len() < MAX_HAND {
            let drawn = self.library[self.lib_top];
            self.hand.push(drawn);
            self.lib_top += 1;
        }
        self.took_mulligan = true;
    }

    /// Plays the game from the current hand for at most `max_turns` turns
    /// and returns its record.
    pub fn play(self, cards: &[SimCard], mechanics: &[SimMechanic], max_turns: u8) -> (rec: GameRecord)
        requires
            self@.wf(cards@.len() as int),
        ensures
            rec@ == spec_play(cards@, mechanics@, self@, max_turns),
            record_laws(rec@),
            formation_laws(rec@, formation_count(mechanics@)),
            rec@.took_mulligan() == self@.took_mulligan,
            rec@.opened_landless() == self@.opened_landless,
            rec@.combo_win() ==> exists|k: int|
                0 <= k < formation_count(mechanics@) && #[trigger] mechanics@[k].advantage
                    == advantage::COMBO_WIN && rec@.formation_assembled_mask & bit(k) != 0,
            no_land_commander(cards@) ==> lands_follow_drops(rec@),
    {
        let ghost g = self@;
        let mut t = Table::start(cards, self);
        let ghost start = t@;
        proof {
            assert(forall|x: u32| 0u32 & x == 0u32) by (bit_vector);
            assert(t@.rec.formation_first_turn =~= crate::types::zeros(32));
            lemma_start_land_count(cards@, g);
        }
        let mut turn: u16 = 1;
        while turn <= max_turns as u16
            invariant
                1 <= turn <= max_turns as int + 1,
                t@.wf(cards@.len() as int),
                start == table_start(cards@, g),
                g == self@,
                table_laws(cards@, t@),
                t@.rec.total_turns == turn - 1,
                formation_laws(t@.rec, formation_count(mechanics@)),
                t@.rec.flags == start_flags(g),
                no_land_commander(cards@) ==> land_count_kept(cards@, t@),
                play_turns_from(cards@, mechanics@, t@, turn as int, max_turns as int)
                    == play_turns_from(cards@, mechanics@, start, 1, max_turns as int),
            decreases max_turns as int + 1 - turn,
        {
            let ghost before = t@;
            let ended = t.play_turn(cards, mechanics, turn as u8);
            assert(play_turns_from(cards@, mechanics@, before, turn as int, max_turns as int) == (
            if ended {
                (t@, true)
            } else {
                play_turns_from(cards@, mechanics@, t@, turn + 1, max_turns as int)
            }));
            if ended {
                proof {
                    lemma_flags_read(t.rec.flags, g);
                }
                return t.rec;
            }
            assert(t@.rec.flags == start_flags(g));
            turn += 1;
        }
        if mechanics.len() < MAX_FORMATIONS {
            t.rec.formation_first_turn[31] = t.creatures_at_t5;
        }
        proof {
            lemma_flags_read(t.rec.flags, g);
        }
        t.rec
    }
}

/// The start flags, with or without the combo flag, tell the mulligan and
/// the landless opening, and the combo flag is set only when added.
proof fn lemma_flags_read(f: u8, g: GameView)
    requires
        f == start_flags(g) || f == start_flags(g) | 0x01,
    ensures
        (f & 0x02 != 0) == g.took_mulligan,
        (f & 0x04 != 0) == g.opened_landless,
        (f & 0x01 != 0) == (f == start_flags(g) | 0x01),
        start_flags(g) | 0x01 != start_flags(g),
{
    let st = start_flags(g);
    assert(0x06u8 | 0x01u8 == 0x07u8 && 0x02u8 | 0x01u8 == 0x03u8 && 0x04u8 | 0x01u8 == 0x05u8
        && 0u8 | 0x01u8 == 0x01u8) by (bit_vector);
    assert(0x07u8 & 0x02u8 != 0 && 0x07u8 & 0x04u8 != 0 && 0x07u8 & 0x01u8 != 0) by (bit_vector);
    assert(0x06u8 & 0x02u8 != 0 && 0x06u8 & 0x04u8 != 0 && 0x06u8 & 0x01u8 == 0) by (bit_vector);
    assert(0x03u8 & 0x02u8 != 0 && 0x03u8 & 0x04u8 == 0 && 0x03u8 & 0x01u8 != 0) by (bit_vector);
    assert(0x02u8 & 0x02u8 != 0 && 0x02u8 & 0x04u8 == 0 && 0x02u8 & 0x01u8 == 0) by (bit_vector);
    assert(0x05u8 & 0x02u8 == 0 && 0x05u8 & 0x04u8 != 0 && 0x05u8 & 0x01u8 != 0) by (bit_vector);
    assert(0x04u8 & 0x02u8 == 0 && 0x04u8 & 0x04u8 != 0 && 0x04u8 & 0x01u8 == 0) by (bit_vector);
    assert(0x01u8 & 0x02u8 == 0 && 0x01u8 & 0x04u8 == 0 && 0x01u8 & 0x01u8 != 0) by (bit_vector);
    assert(0u8 & 0x02u8 == 0 && 0u8 & 0x04u8 == 0 && 0u8 & 0x01u8 == 0) by (bit_vector);
}

proof fn lemma_first_commander_prefix(cards: Seq<SimCard>, k: int, m: int)
    requires
        0 <= k <= m,
        first_commander(cards, k) is Some,
    ensures
        first_commander(cards, m) == first_commander(cards, k),
    decreases m - k,
{
    if m > k {
        lemma_first_commander_prefix(cards, k, m - 1);
    }
}

/// Index of the first commander among the first `n` cards.
fn find_commander(cards: &[SimCard], n: usize) -> (r: Option<usize>)
    requires
        n <= cards@.len(),
    ensures
        opt_int(r) == first_commander(cards@, n as int),
        r matches Some(c) ==> c < n,
{
    let mut c: usize = 0;
    while c < n
        invariant
            c <= n <= cards@.len(),
            first_commander(cards@, c as int) is None,
        decreases n - c,
    {
        if cards[c].is_commander() {
            proof {
                lemma_first_commander_prefix(cards@, c + 1, n as int);
            }
            return Some(c);
        }
        c += 1;
    }
    None
}

/// A game in progress.
struct Table {
    library: Vec<u8>,
    lib_top: usize,
    hand: Vec<u8>,
    battlefield: Vec<bool>,
    seen: Vec<bool>,
    commander: Option<usize>,
    commander_times_cast: u8,
    creatures_at_t5: u8,
    rec: GameRecord,
}

impl View for Table {
    type V = TableView;

    closed spec fn view(&self) -> TableView {
        TableView {
            library: self.library@,
            lib_top: self.lib_top as int,
            hand: self.hand@,
            battlefield: self.battlefield@,
            seen: self.seen@,
            commander: opt_int(self.commander),
            commander_times_cast: self.commander_times_cast,
            creatures_at_t5: self.creatures_at_t5,
            rec: self.rec@,
        }
    }
}

impl Table {
    /// The game at the start of turn 1.
    fn start(cards: &[SimCard], game: Game) -> (t: Table)
        requires
            game@.wf(cards@.len() as int),
        ensures
            t@ =~= table_start(cards@, game@),
            t@.wf(cards@.len() as int),
            table_laws(cards@, t@),
    {
        let n = game.library.len();
        let mut battlefield: Vec<bool> = Vec::new();
        let mut i: usize = 0;
        while i < n
            invariant
                i <= n,
                battlefield@ =~= Seq::new(i as nat, |k: int| false),
            decreases n - i,
        {
            battlefield.push(false);
            i += 1;
        }
        let mut seen = battlefield.clone();
        assert(seen@ =~= Seq::new(n as nat, |k: int| false));
        let ghost unseen = seen@;
        let mut h: usize = 0;
        while h < game.hand.len()
            invariant
                h <= game.hand@.len(),
                game@.wf(cards@.len() as int),
                n == game.library@.len(),
                seen@.len() == n,
                seen@ =~= mark_seen(unseen, game.hand@.take(h as int)),
            decreases game.hand@.len() - h,
        {
            proof {
                assert(game.hand@.take(h + 1).drop_last() =~= game.hand@.take(h as int));
            }
            seen.set(game.hand[h] as usize, true);
            h += 1;
        }
        assert(game.hand@.take(game.hand@.len() as int) =~= game.hand@);
        let commander = find_commander(cards, n);
        let mut rec = GameRecord::new();
        if game.took_mulligan && game.opened_landless {
            rec.flags = 0x06;
        } else if game.took_mulligan {
            rec.flags = 0x02;
        } else if game.opened_landless {
            rec.flags = 0x04;
        }
        Table {
            library: game.library,
            lib_top: game.lib_top,
            hand: game.hand,
            battlefield,
            seen,
            commander,
            commander_times_cast: 0,
            creatures_at_t5: 0,
            rec,
        }
    }

    /// The draw step.
    fn draw_for_turn(&mut self, cards: &[SimCard])
        requires
            old(self)@.wf(cards@.len() as int),
        ensures
            final(self)@ =~= draw_for_turn(old(self)@),
            final(self)@.wf(cards@.len() as int),
    {
        if self.lib_top < self.library.len() {
            let drawn = self.library[self.lib_top];
            self.lib_top += 1;
            self.rec.total_cards_drawn += 1;
            if self.hand.len() < MAX_HAND {
                self.hand.push(drawn);
            }
            self.seen.set(drawn as usize, true);
        }
    }
    /// The land drop: plays the first land in the hand; true if one was played.
    fn land_drop(&mut self, cards: &[SimCard]) -> (played: bool)
        requires
            old(self)@.wf(cards@.len() as int),
        ensures
            final(self)@ =~= land_drop(cards@, old(self)@).0,
            played == land_drop(cards@, old(self)@).1,
            final(self)@.wf(cards@.len() as int),
    {
        proof {
            lemma_first_land_in_hand(cards@, self.hand@);
        }
        match find_first_land(cards, self.hand.as_slice()) {
            Some(p) => {
                let idx = self.hand[p];
                self.battlefield.set(idx as usize, true);
                self.hand.swap_remove(p);
                true
            },
            None => false,
        }
    }

    /// Lands on the battlefield.
    fn lands_on_battlefield(&self, cards: &[SimCard]) -> (r: u8)
        requires
            self@.wf(cards@.len() as int),
        ensures
            r == lands_on_battlefield(cards@, self@.battlefield, self@.n()),
    {
        let n = self.battlefield.len();
        let mut count: u8 = 0;
        let mut i: usize = 0;
        while i < n
            invariant
                i <= n,
                self@.wf(cards@.len() as int),
                n == self@.n(),
                count == lands_on_battlefield(cards@, self@.battlefield, i as int),
                count <= i,
            decreases n - i,
        {
            if self.battlefield[i] && cards[i].is_land() {
                count += 1;
            }
            i += 1;
        }
        count
    }

    /// Creatures on the battlefield.
    fn creatures_on_battlefield(&self, cards: &[SimCard]) -> (r: u8)
        requires
            self@.wf(cards@.len() as int),
        ensures
            r == creatures_on_battlefield(cards@, self@.battlefield, self@.n()),
    {
        let n = self.battlefield.len();
        let mut count: u8 = 0;
        let mut i: usize = 0;
        while i < n
            invariant
                i <= n,
                self@.wf(cards@.len() as int),
                n == self@.n(),
                count == creatures_on_battlefield(cards@, self@.battlefield, i as int),
                count <= i,
            decreases n - i,
        {
            if self.battlefield[i] && cards[i].is_creature() {
                count += 1;
            }
            i += 1;
        }
        count
    }

    /// Total power of the creatures on the battlefield.
    fn creature_power(&self, cards: &[SimCard]) -> (r: u16)
        requires
            self@.wf(cards@.len() as int),
        ensures
            r == creature_power(cards@, self@.battlefield, self@.n()),
    {
        let n = self.battlefield.len();
        let mut power: u16 = 0;
        let mut i: usize = 0;
        while i < n
            invariant
                i <= n,
                self@.wf(cards@.len() as int),
                n == self@.n(),
                power == creature_power(cards@, self@.battlefield, i as int),
                power <= 255 * i,
            decreases n - i,
        {
            if self.battlefield[i] && cards[i].is_creature() {
                power += cards[i].power as u16;
            }
            i += 1;
        }
        power
    }

    /// The mana the battlefield produces: every mana-producing permanent adds
    /// its colors, every other land one colorless.
    fn mana_pool(&self, cards: &[SimCard]) -> (pool: ManaPool)
        requires
            self@.wf(cards@.len() as int),
        ensures
            pool == mana_pool(cards@, self@.battlefield),
    {
        let n = self.battlefield.len();
        let mut pool = ManaPool::empty();
        let mut i: usize = 0;
        while i < n
            invariant
                i <= n,
                self@.wf(cards@.len() as int),
                n == self@.n(),
                pool == tapped_mana(cards@, self@.battlefield, i as int),
            decreases n - i,
        {
            if self.battlefield[i] && cards[i].is_mana_producing() {
                pool.add_from_mask(cards[i].color_mask);
            }
            i += 1;
        }
        let ghost tapped = pool;
        let mut j: usize = 0;
        while j < n
            invariant
                j <= n,
                self@.wf(cards@.len() as int),
                n == self@.n(),
                tapped == tapped_mana(cards@, self@.battlefield, n as int),
                pool == basic_land_mana(cards@, self@.battlefield, j as int, tapped),
            decreases n - j,
        {
            if self.battlefield[j] && cards[j].is_land() && !cards[j].is_mana_producing() {
                pool.c = pool.c.saturating_add(1);
            }
            j += 1;
        }
        pool
    }

    /// The main phase's casting.
    fn cast_spells(&mut self, cards: &[SimCard], pool: &mut ManaPool, spells: &mut u8, top: &mut u8)
        requires
            old(self)@.wf(cards@.len() as int),
            *old(spells) + old(self)@.hand.len() <= MAX_HAND,
        ensures
            ({
                let (t2, p2, s2, c2) = cast_spells(
                    cards@,
                    old(self)@,
                    *old(pool),
                    *old(spells),
                    *old(top),
                );
                final(self)@ =~= t2 && *final(pool) == p2 && *final(spells) == s2 && *final(top)
                    == c2
            }),
            final(self)@.wf(cards@.len() as int),
            *final(spells) <= MAX_HAND,
    {
        loop
            invariant
                self@.wf(cards@.len() as int),
                *spells + self@.hand.len() <= MAX_HAND,
                cast_spells(cards@, self@, *pool, *spells, *top) == cast_spells(
                    cards@,
                    old(self)@,
                    *old(pool),
                    *old(spells),
                    *old(top),
                ),
            ensures
                self@.hand.len() == 0 || best_castable(cards@, self@.hand, Some(*pool)) is None,
            decreases self@.hand.len(),
        {
            proof {
                lemma_best_castable_in_hand(cards@, self.hand@, Some(*pool));
            }
            match find_best_castable(cards, self.hand.as_slice(), Some(*pool)) {
                None => break,
                Some(p) => {
                    let ghost before = self@;
                    let ghost pool_before = *pool;
                    let ghost spells_before = *spells;
                    let ghost top_before = *top;
                    let idx = self.hand[p] as usize;
                    let card = cards[idx];
                    pool.pay(&card);
                    if *top < card.cmc {
                        *top = card.cmc;
                    }
                    *spells += 1;
                    self.rec.total_spells_cast += 1;
                    if card.is_land() || card.is_creature() || (card.flags & 0x04 != 0) || (
                    card.flags & 0x08 != 0 && !card.is_land()) {
                        self.battlefield.set(idx, true);
                    }
                    self.hand.swap_remove(p);
                    proof {
                        let t2 = TableView {
                            battlefield: if stays_on_battlefield(card) {
                                before.battlefield.update(idx as int, true)
                            } else {
                                before.battlefield
                            },
                            hand: remove_at(before.hand, p as int),
                            rec: RecordView {
                                total_spells_cast: (before.rec.total_spells_cast + 1) as u8,
                                ..before.rec
                            },
                            ..before
                        };
                        assert(self@ =~= t2);
                        assert(before.hand.len() > 0);
                        assert(cast_spells(cards@, before, pool_before, spells_before, top_before)
                            == cast_spells(cards@, self@, *pool, *spells, *top));
                    }
                },
            }
        }
    }

    /// Casts the commander from the command zone when it is not on the
    /// battlefield and the pool covers its cost.
    fn commander_step(
        &mut self,
        cards: &[SimCard],
        pool: &ManaPool,
        spells: &mut u8,
        top: &mut u8,
        turn: u8,
    )
        requires
            old(self)@.wf(cards@.len() as int),
            *old(spells) <= MAX_HAND,
        ensures
            ({
                let (t2, s2, c2) = commander_step(
                    cards@,
                    old(self)@,
                    *pool,
                    *old(spells),
                    *old(top),
                    turn,
                );
                final(self)@ =~= t2 && *final(spells) == s2 && *final(top) == c2
            }),
            final(self)@.wf(cards@.len() as int),
            *final(spells) <= MAX_HAND + 1,
    {
        if let Some(ci) = self.commander {
            if !self.battlefield[ci] {
                let cmd = cards[ci];
                let extra: u8 = self.commander_times_cast * 2;
                let adjusted = SimCard { mana_generic: cmd.mana_generic.saturating_add(extra), ..cmd };
                assert(adjusted == commander_cost(cmd, self.commander_times_cast));
                if pool.can_pay(&adjusted) {
                    self.battlefield.set(ci, true);
                    if self.rec.commander_cast_turn == 0 {
                        self.rec.commander_cast_turn = turn;
                    }
                    self.commander_times_cast += 1;
                    *spells += 1;
                    self.rec.total_spells_cast += 1;
                    let cost = cmd.cmc.saturating_add(extra);
                    if *top < cost {
                        *top = cost;
                    }
                }
            }
        }
    }

    /// Combat: creatures on the battlefield deal their power.
    fn combat(&mut self, cards: &[SimCard])
        requires
            old(self)@.wf(cards@.len() as int),
        ensures
            final(self)@ =~= combat(cards@, old(self)@),
            final(self)@.wf(cards@.len() as int),
    {
        let damage = self.creature_power(cards);
        self.rec.damage_dealt = self.rec.damage_dealt.saturating_add(damage);
    }
    /// Draws the top card into the hand if the library is not empty and the
    /// hand is not full.
    fn draw_if_room(&mut self, cards: &[SimCard])
        requires
            old(self)@.wf(cards@.len() as int),
        ensures
            final(self)@ =~= draw_if_room(old(self)@),
            final(self)@.wf(cards@.len() as int),
    {
        if self.lib_top < self.library.len() && self.hand.len() < MAX_HAND {
            let drawn = self.library[self.lib_top];
            self.lib_top += 1;
            self.rec.total_cards_drawn += 1;
            self.hand.push(drawn);
            self.seen.set(drawn as usize, true);
        }
    }

    /// The effect of a newly assembled formation; true on a combo win.
    fn apply_advantage(&mut self, cards: &[SimCard], adv: u8, turn: u8) -> (ended: bool)
        requires
            old(self)@.wf(cards@.len() as int),
        ensures
            final(self)@ =~= apply_advantage(old(self)@, adv, turn).0,
            ended == apply_advantage(old(self)@, adv, turn).1,
            final(self)@.wf(cards@.len() as int),
    {
        if adv == advantage::CARD_DRAW {
            self.draw_if_room(cards);
            self.draw_if_room(cards);
            false
        } else if adv == advantage::TOKEN_CREATION {
            self.rec.damage_dealt = self.rec.damage_dealt.saturating_add(2);
            false
        } else if adv == advantage::DIRECT_DAMAGE {
            self.rec.damage_dealt = self.rec.damage_dealt.saturating_add(3);
            false
        } else if adv == advantage::COMBO_WIN {
            self.rec.flags = self.rec.flags | 0x01;
            self.rec.total_turns = turn;
            true
        } else {
            false
        }
    }

    /// Checks formation `m`; true on a combo win.
    fn check_formation(
        &mut self,
        cards: &[SimCard],
        mechanics: &[SimMechanic],
        turn: u8,
        m: usize,
    ) -> (ended: bool)
        requires
            old(self)@.wf(cards@.len() as int),
            m < mechanics@.len(),
            m < MAX_FORMATIONS,
        ensures
            final(self)@ =~= check_formation(cards@, mechanics@, old(self)@, turn, m as int).0,
            ended == check_formation(cards@, mechanics@, old(self)@, turn, m as int).1,
            final(self)@.wf(cards@.len() as int),
    {
        let b: u32 = 1u32 << (m as u32);
        assert(b == bit(m as int));
        if self.rec.formation_assembled_mask & b != 0 {
            return false;
        }
        let mech = mechanics[m];
        if mech.prereq_mask != 0 && (self.rec.formation_assembled_mask & mech.prereq_mask)
            != mech.prereq_mask {
            return false;
        }
        if mech.card_mask == 0 {
            return false;
        }
        let n = self.battlefield.len();
        let k: usize = if n < MAX_FORMATIONS { n } else { MAX_FORMATIONS };
        let on_bf = mask_of_marked(mech.card_mask, self.battlefield.as_slice(), k);
        let seen = mask_of_marked(mech.card_mask, self.seen.as_slice(), k);
        if seen == mech.card_mask {
            self.rec.formation_seen_mask = self.rec.formation_seen_mask | b;
        }
        let required = count_set_bits(mech.card_mask);
        let present = count_set_bits(on_bf);
        if required > 0 && present * 2 >= required {
            self.rec.formation_partial_mask = self.rec.formation_partial_mask | b;
        }
        if on_bf == mech.card_mask {
            self.rec.formation_assembled_mask = self.rec.formation_assembled_mask | b;
            if self.rec.formation_first_turn[m] == 0 {
                self.rec.formation_first_turn[m] = turn;
            }
            return self.apply_advantage(cards, mech.advantage, turn);
        }
        false
    }

    /// Checks the tracked formations in order, stopping at a combo win; true
    /// on a combo win.
    fn check_formations(&mut self, cards: &[SimCard], mechanics: &[SimMechanic], turn: u8) -> (ended:
        bool)
        requires
            old(self)@.wf(cards@.len() as int),
        ensures
            final(self)@ =~= check_formations_from(
                cards@,
                mechanics@,
                old(self)@,
                turn,
                0,
                formation_count(mechanics@),
            ).0,
            ended == check_formations_from(
                cards@,
                mechanics@,
                old(self)@,
                turn,
                0,
                formation_count(mechanics@),
            ).1,
            final(self)@.wf(cards@.len() as int),
    {
        let count: usize = if mechanics.len() < MAX_FORMATIONS {
            mechanics.len()
        } else {
            MAX_FORMATIONS
        };
        let mut m: usize = 0;
        while m < count
            invariant
                m <= count,
                count == formation_count(mechanics@),
                self@.wf(cards@.len() as int),
                check_formations_from(cards@, mechanics@, self@, turn, m as int, count as int)
                    == check_formations_from(
                    cards@,
                    mechanics@,
                    old(self)@,
                    turn,
                    0,
                    count as int,
                ),
            decreases count - m,
        {
            if self.check_formation(cards, mechanics, turn, m) {
                return true;
            }
            m += 1;
        }
        false
    }
    /// Records the colors of `mask` not seen before as first seen in `turn`.
    fn record_color_firsts(&mut self, cards: &[SimCard], mask: u8, turn: u8)
        requires
            old(self)@.wf(cards@.len() as int),
        ensures
            final(self)@ =~= record_color_firsts(old(self)@, mask, turn),
            final(self)@.wf(cards@.len() as int),
    {
        let ghost t2 = self@;
        let ghost first_before = self.rec.color_first_turn@;
        let mut b: u8 = 0;
        while b < 6
            invariant
                b <= 6,
                self@.wf(cards@.len() as int),
                self@ =~= (TableView {
                    rec: RecordView { color_first_turn: self.rec.color_first_turn@, ..t2.rec },
                    ..t2
                }),
                forall|k: int|
                    0 <= k < 6 ==> self.rec.color_first_turn@[k] == if k < b {
                        update_color_first(first_before, mask, turn)[k]
                    } else {
                        first_before[k]
                    },
            decreases 6 - b,
        {
            if mask & (1u8 << b) != 0 && self.rec.color_first_turn[b as usize] == 0 {
                self.rec.color_first_turn[b as usize] = turn;
            }
            b += 1;
        }
        assert(self.rec.color_first_turn@ =~= update_color_first(first_before, mask, turn));
    }

    /// The first half of a turn: draw, land drop, mana, casting, the
    /// commander and combat.
    fn main_phase(&mut self, cards: &[SimCard], turn: u8) -> (s: TurnSummary)
        requires
            old(self)@.wf(cards@.len() as int),
            turn >= 1,
        ensures
            final(self)@ =~= main_phase(cards@, old(self)@, turn).0,
            s == main_phase(cards@, old(self)@, turn).1,
            final(self)@.wf(cards@.len() as int),
            same_turn_statistics(old(self)@.rec, final(self)@.rec),
            forall|c: int|
                0 <= c < 6 ==> (#[trigger] final(self)@.rec.color_first_turn[c]
                    == old(self)@.rec.color_first_turn[c] || final(self)@.rec.color_first_turn[c]
                    == turn),
            forall|c: int|
                0 <= c < 6 && old(self)@.rec.color_first_turn[c] != 0 ==> #[trigger] final(self)@.rec.color_first_turn[c]
                    == old(self)@.rec.color_first_turn[c],
            forall|c: int|
                0 <= c < 6 && s.color_mask & (1u8 << (c as u8)) != 0 ==> #[trigger] final(self)@.rec.color_first_turn[c]
                    != 0,
            lands_on_battlefield(cards@, old(self)@.battlefield, old(self)@.n()) <= s.lands
                <= lands_on_battlefield(cards@, final(self)@.battlefield, final(self)@.n()),
            final(self)@.n() == old(self)@.n(),
            final(self)@.rec.formation_assembled_mask == old(self)@.rec.formation_assembled_mask,
            final(self)@.rec.formation_first_turn == old(self)@.rec.formation_first_turn,
            final(self)@.rec.flags == old(self)@.rec.flags,
            forall|c: int|
                0 <= c < 6 && #[trigger] final(self)@.rec.color_first_turn[c] != old(
                    self,
                )@.rec.color_first_turn[c] ==> s.color_mask & (1u8 << (c as u8)) != 0,
            final(self)@.rec.commander_cast_turn == old(self)@.rec.commander_cast_turn || (old(
                self,
            )@.rec.commander_cast_turn == 0 && final(self)@.rec.commander_cast_turn == turn
                && s.spells >= 1),
            s.hand_size <= MAX_HAND,
            s.castable <= s.hand_size,
            s.spells == 0 ==> s.top == 0,
            s.color_mask < 64,
    {
        let ghost t0 = self@;
        self.draw_for_turn(cards);
        let ghost t1 = self@;
        proof {
            lemma_first_land_in_hand(cards@, t1.hand);
        }
        let played = self.land_drop(cards);
        let ghost t2 = self@;
        let lands = self.lands_on_battlefield(cards);
        let mut pool = self.mana_pool(cards);
        let mana_total = pool.total();
        let color_mask = pool.color_mask();
        let castable = count_castable(cards, self.hand.as_slice(), &pool);
        let hand_size = self.hand.len() as u8;
        self.record_color_firsts(cards, color_mask, turn);
        let ghost t3 = self@;
        let ghost pool0 = pool;
        let mut spells: u8 = 0;
        let mut top: u8 = 0;
        self.cast_spells(cards, &mut pool, &mut spells, &mut top);
        let ghost t4 = self@;
        self.commander_step(cards, &pool, &mut spells, &mut top, turn);
        let ghost t5 = self@;
        self.combat(cards);
        let ghost t6 = self@;
        proof {
            let n = t0.n();
            assert(grows(t0.battlefield, t2.battlefield));
            lemma_cast_spells_frame(cards@, t3, pool0, 0, 0);
            lemma_cast_spells_tally(cards@, t3, pool0, 0, 0);
            assert(grows(t2.battlefield, t4.battlefield));
            assert(grows(t2.battlefield, t6.battlefield));
            lemma_lands_grow(cards@, t0.battlefield, t2.battlefield, n);
            lemma_lands_grow(cards@, t2.battlefield, t6.battlefield, n);
            assert(t6.rec.color_first_turn == t3.rec.color_first_turn);
            assert forall|c: int|
                0 <= c < 6 && color_mask & (1u8 << (c as u8)) != 0 implies #[trigger] t6.rec.color_first_turn[c]
                != 0 by {
                assert(t3.rec.color_first_turn[c] == update_color_first(
                    t2.rec.color_first_turn,
                    color_mask,
                    turn,
                )[c]);
            }
        }
        TurnSummary { played, lands, mana_total, color_mask, castable, hand_size, spells, top }
    }

    /// A turn's peak mana, missed land drop and snapshot.
    fn record_turn(&mut self, cards: &[SimCard], s: TurnSummary, turn: u8, Ghost(prev): Ghost<RecordView>)
        requires
            old(self)@.wf(cards@.len() as int),
            turn_progress(prev, old(self)@.rec, s, turn),
            s.lands <= lands_on_battlefield(cards@, old(self)@.battlefield, old(self)@.n()),
        ensures
            final(self)@.wf(cards@.len() as int),
            final(self)@ =~= (TableView { rec: turn_statistics(old(self)@.rec, s, turn), ..old(self)@ }),
            table_laws(
                cards@,
                TableView { rec: RecordView { total_turns: turn, ..final(self)@.rec }, ..final(self)@ },
            ),
    {
        let missed = !s.played && s.lands < turn;
        if s.mana_total > self.rec.peak_mana {
            self.rec.peak_mana = s.mana_total;
        }
        if missed {
            self.rec.total_missed_land_drops = self.rec.total_missed_land_drops + 1;
            if self.rec.first_missed_land_turn == 0 {
                self.rec.first_missed_land_turn = turn;
            }
        }
        let ghost before = old(self)@;
        if turn >= 1 && turn <= 6 {
            let i = (turn - 1) as usize;
            self.rec.lands_in_play[i] = s.lands;
            self.rec.mana_available[i] = s.mana_total;
            self.rec.color_mask[i] = s.color_mask;
            self.rec.castable_count[i] = s.castable;
            self.rec.hand_size[i] = s.hand_size;
            self.rec.cmc_top_cast[i] = s.top;
            self.rec.spells_cast_per_turn[i] = s.spells;
            self.rec.land_played[i] = if s.played { 1 } else { 0 };
        }
        proof {
            lemma_turn_statistics_laws(prev, before.rec, s, turn);
        }
    }

    /// The second half of a turn: peak mana, missed land drops, the snapshot,
    /// the formations and the turn count; true when the game ended with a
    /// combo win.
    fn end_of_turn(
        &mut self,
        cards: &[SimCard],
        mechanics: &[SimMechanic],
        s: TurnSummary,
        turn: u8,
        Ghost(prev): Ghost<RecordView>,
    ) -> (ended: bool)
        requires
            old(self)@.wf(cards@.len() as int),
            turn_progress(prev, old(self)@.rec, s, turn),
            s.lands <= lands_on_battlefield(cards@, old(self)@.battlefield, old(self)@.n()),
        ensures
            final(self)@.wf(cards@.len() as int),
            table_laws(cards@, final(self)@),
            final(self)@.rec.total_turns == turn,
            final(self)@.rec.flags & 0x06 == old(self)@.rec.flags & 0x06,
            formation_laws(old(self)@.rec, formation_count(mechanics@)) ==> formation_laws(
                final(self)@.rec,
                formation_count(mechanics@),
            ),
            final(self)@ =~= end_of_turn(cards@, mechanics@, old(self)@, s, turn).0,
            ended == end_of_turn(cards@, mechanics@, old(self)@, s, turn).1,
            !ended ==> final(self)@.rec.flags == old(self)@.rec.flags,
            ended ==> final(self)@.rec.flags == old(self)@.rec.flags | 0x01 && exists|k: int|
                0 <= k < formation_count(mechanics@) && #[trigger] mechanics@[k].advantage
                    == advantage::COMBO_WIN && final(self)@.rec.formation_assembled_mask & bit(k) != 0,
    {
        self.record_turn(cards, s, turn, Ghost(prev));
        let ghost t8 = self@;
        proof {
            lemma_formations_frame(cards@, mechanics@, t8, turn, 0, formation_count(mechanics@));
        }
        if self.check_formations(cards, mechanics, turn) {
            proof {
                lemma_record_laws_read(RecordView { total_turns: turn, ..t8.rec }, self@.rec);
            }
            return true;
        }
        if turn == 5 {
            self.creatures_at_t5 = self.creatures_on_battlefield(cards);
        }
        self.rec.total_turns = turn;
        proof {
            lemma_record_laws_read(RecordView { total_turns: turn, ..t8.rec }, self@.rec);
        }
        false
    }

    /// One turn; true when the game ended with a combo win.
    fn play_turn(&mut self, cards: &[SimCard], mechanics: &[SimMechanic], turn: u8) -> (ended: bool)
        requires
            old(self)@.wf(cards@.len() as int),
            turn >= 1,
            table_laws(cards@, old(self)@),
            old(self)@.rec.total_turns == turn - 1,
        ensures
            final(self)@.wf(cards@.len() as int),
            table_laws(cards@, final(self)@),
            final(self)@.rec.total_turns == turn,
            final(self)@.rec.flags & 0x06 == old(self)@.rec.flags & 0x06,
            formation_laws(old(self)@.rec, formation_count(mechanics@)) ==> formation_laws(
                final(self)@.rec,
                formation_count(mechanics@),
            ),
            final(self)@ =~= play_turn(cards@, mechanics@, old(self)@, turn).0,
            ended == play_turn(cards@, mechanics@, old(self)@, turn).1,
            no_land_commander(cards@) && land_count_kept(cards@, old(self)@) ==> land_count_kept(
                cards@,
                final(self)@,
            ),
            !ended ==> final(self)@.rec.flags == old(self)@.rec.flags,
            ended ==> final(self)@.rec.flags == old(self)@.rec.flags | 0x01 && exists|k: int|
                0 <= k < formation_count(mechanics@) && #[trigger] mechanics@[k].advantage
                    == advantage::COMBO_WIN && final(self)@.rec.formation_assembled_mask & bit(k) != 0,
    {
        let ghost prev = self@.rec;
        let ghost t0 = self@;
        let s = self.main_phase(cards, turn);
        assert(turn_progress(prev, self@.rec, s, turn));
        let ghost t6 = self@;
        proof {
            if no_land_commander(cards@) && land_count_kept(cards@, t0) {
                lemma_main_phase_land_count(cards@, t0, turn);
                lemma_end_of_turn_land_count(cards@, mechanics@, t6, s, turn);
            }
        }
        self.end_of_turn(cards, mechanics, s, turn, Ghost(prev))
    }
}

/// The bits among the first `k` of `mask` whose entry of `marked` is set.
fn mask_of_marked(mask: u32, marked: &[bool], k: usize) -> (r: u32)
    requires
        k <= MAX_FORMATIONS,
        k <= marked@.len(),
    ensures
        r == formation_bits(mask, marked@, k as int),
{
    let mut r: u32 = 0;
    let mut i: usize = 0;
    while i < k
        invariant
            i <= k <= MAX_FORMATIONS,
            k <= marked@.len(),
            r == formation_bits(mask, marked@, i as int),
        decreases k - i,
    {
        let b: u32 = 1u32 << (i as u32);
        assert(b == bit(i as int));
        if mask & b != 0 && marked[i] {
            r = r | b;
        }
        i += 1;
    }
    r
}

/// Set bits of `x`.
fn count_set_bits(x: u32) -> (r: u32)
    ensures
        r == set_bits(x, 32),
        r <= 32,
{
    let mut r: u32 = 0;
    let mut i: u32 = 0;
    while i < 32
        invariant
            i <= 32,
            r == set_bits(x, i as int),
            r <= i,
        decreases 32 - i,
    {
        let b: u32 = 1u32 << i;
        assert(b == bit(i as int));
        if x & b != 0 {
            r += 1;
        }
        i += 1;
    }
    r
}

/// Castable cards in `hand`.
fn count_castable(cards: &[SimCard], hand: &[u8], pool: &ManaPool) -> (r: u8)
    requires
        indices_below(hand@, cards@.len() as int),
        hand@.len() <= MAX_HAND,
    ensures
        r == castable_count(cards@, hand@, *pool),
        r <= hand@.len(),
{
    let mut count: u8 = 0;
    let mut i: usize = 0;
    while i < hand.len()
        invariant
            i <= hand@.len() <= MAX_HAND,
            indices_below(hand@, cards@.len() as int),
            count == castable_count(cards@, hand@.take(i as int), *pool),
            count <= i,
        decreases hand@.len() - i,
    {
        proof {
            assert(hand@.take(i + 1).drop_last() =~= hand@.take(i as int));
        }
        let card = cards[hand[i] as usize];
        if !card.is_land() && pool.can_pay(&card) {
            count += 1;
        }
        i += 1;
    }
    assert(hand@.take(hand@.len() as int) =~= hand@);
    count
}

} // verus!
