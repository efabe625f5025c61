//! Card, mechanic, mulligan-config and per-game record types shared by the
//! codec and the game engine.

pub mod advantage;

use vstd::prelude::*;

verus! {

/// Decoded card: one entry per physical copy in the deck.
#[derive(Clone, Copy, Debug)]
pub struct SimCard {
    /// Bit flags: 0 = land, 1 = creature, 2 = artifact, 3 = mana producing,
    /// 4 = commander, 5 = X cost (mulligan scoring only).
    pub flags: u8,
    /// Converted mana cost.
    pub cmc: u8,
    /// Creature power.
    pub power: u8,
    pub toughness: u8,
    /// Colors of mana this card produces when tapped: W=0, U=1, B=2, R=3, G=4, C=5.
    pub color_mask: u8,
    /// Colored mana pips in the cost.
    pub mana_w: u8,
    pub mana_u: u8,
    pub mana_b: u8,
    pub mana_r: u8,
    pub mana_g: u8,
    pub mana_generic: u8,
    /// Formation role ordinal.
    pub formation_role: u8,
    /// Bit i set: the card belongs to mechanic group i.
    pub mechanic_mask: u32,
}

impl SimCard {
    pub open spec fn spec_is_land(&self) -> bool {
        self.flags & 0x01 != 0
    }

    pub open spec fn spec_is_creature(&self) -> bool {
        self.flags & 0x02 != 0
    }

    pub open spec fn spec_is_mana_producing(&self) -> bool {
        self.flags & 0x08 != 0
    }

    pub open spec fn spec_is_commander(&self) -> bool {
        self.flags & 0x10 != 0
    }

    pub open spec fn spec_is_x_cost(&self) -> bool {
        self.flags & 0x20 != 0
    }

    pub open spec fn spec_is_permanent(&self) -> bool {
        self.flags & 0x07 != 0
    }

    #[verifier::when_used_as_spec(spec_is_land)]
    pub fn is_land(&self) -> (b: bool)
        ensures
            b == self.spec_is_land(),
    {
        self.flags & 0x01 != 0
    }

    #[verifier::when_used_as_spec(spec_is_creature)]
    pub fn is_creature(&self) -> (b: bool)
        ensures
            b == self.spec_is_creature(),
    {
        self.flags & 0x02 != 0
    }

    #[verifier::when_used_as_spec(spec_is_mana_producing)]
    pub fn is_mana_producing(&self) -> (b: bool)
        ensures
            b == self.spec_is_mana_producing(),
    {
        self.flags & 0x08 != 0
    }

    #[verifier::when_used_as_spec(spec_is_commander)]
    pub fn is_commander(&self) -> (b: bool)
        ensures
            b == self.spec_is_commander(),
    {
        self.flags & 0x10 != 0
    }

    #[verifier::when_used_as_spec(spec_is_x_cost)]
    pub fn is_x_cost(&self) -> (b: bool)
        ensures
            b == self.spec_is_x_cost(),
    {
        self.flags & 0x20 != 0
    }

    /// True if this card stays on the battlefield: lands, creatures and
    /// artifacts (flag bits 0, 1, 2). Every other card is a spell.
    #[verifier::when_used_as_spec(spec_is_permanent)]
    pub fn is_permanent(&self) -> (b: bool)
        ensures
            b == self.spec_is_permanent(),
    {
        self.flags & 0x07 != 0
    }

    /// The mana value under which the mulligan curve scores this card: X-cost
    /// cards count two more than their printed cost, and everything at 7 or
    /// above shares the last slot of the curve.
    pub open spec fn curve_index(&self) -> int {
        let raw = if self.spec_is_x_cost() { self.cmc + 2 } else { self.cmc as int };
        if raw < 7 { raw } else { 7 }
    }
}

/// A mechanic group (formation) stripped to simulation essentials.
#[derive(Clone, Copy, Debug)]
pub struct SimMechanic {
    /// Activation condition ordinal.
    pub activation: u8,
    /// Advantage output ordinal (see `advantage`).
    pub advantage: u8,
    /// Evaluation dimension ordinal.
    pub dimension: u8,
    /// Bit i set: card slot i must be on the battlefield.
    pub card_mask: u32,
    /// Bit i set: mechanic group i must be assembled first.
    pub prereq_mask: u32,
}

/// Number of (round, minimum value) entries a mulligan config can hold.
pub const MAX_MULLIGAN_THRESHOLDS: usize = 4;

/// Deck-specific mulligan scoring, decoded from the wire format's header.
///
/// Every value is an IEEE-754 single-precision number carried as its bit
/// pattern (`f32::to_bits`): the lookups below pick values, they never do
/// arithmetic on them.
#[derive(Clone, Copy, Debug)]
pub struct MulliganConfig {
    /// Value of a land in an opening hand.
    pub land_value_bits: u32,
    /// Value curve by mana value: index 0-6 = mana value 0-6, index 7 = 7+.
    pub mv_value_bits: [u32; 8],
    /// (round, minimum hand value) pairs; only the first `threshold_count`
    /// entries are valid.
    pub thresholds: [(u8, u32); 4],
    pub threshold_count: u8,
}

/// Bit patterns of the built-in default configuration's values.
pub const LAND_VALUE_DEFAULT: u32 = 0x3f80_0000;
pub const MV0_DEFAULT: u32 = 0x3f59_999a;
pub const MV1_DEFAULT: u32 = 0x3f4c_cccd;
pub const MV2_DEFAULT: u32 = 0x3f40_0000;
pub const MV3_DEFAULT: u32 = 0x3f19_999a;
pub const MV4_PLUS_DEFAULT: u32 = 0x3e4c_cccd;
pub const ROUND0_DEFAULT: u32 = 0x4060_0000;
pub const ROUND1_DEFAULT: u32 = 0x4040_0000;
pub const ROUND2_DEFAULT: u32 = 0x4020_0000;
pub const ROUND3_DEFAULT: u32 = 0x4000_0000;

/// The value of the first entry of `entries` whose round is `round`.
pub open spec fn first_threshold(entries: Seq<(u8, u32)>, round: u8) -> Option<u32>
    decreases entries.len(),
{
    if entries.len() == 0 {
        None
    } else {
        match first_threshold(entries.drop_last(), round) {
            Some(v) => Some(v),
            None => if entries.last().0 == round {
                Some(entries.last().1)
            } else {
                None
            },
        }
    }
}

impl MulliganConfig {
    /// The built-in default: land 1.0, curve 0.85 / 0.8 / 0.75 / 0.6 and
    /// 0.2 for mana value 4 and above, thresholds 3.5 / 3.0 / 2.5 / 2.0 for
    /// rounds 0-3.
    pub open spec fn spec_default() -> MulliganConfig {
        MulliganConfig {
            land_value_bits: LAND_VALUE_DEFAULT,
            mv_value_bits: [
                MV0_DEFAULT,
                MV1_DEFAULT,
                MV2_DEFAULT,
                MV3_DEFAULT,
                MV4_PLUS_DEFAULT,
                MV4_PLUS_DEFAULT,
                MV4_PLUS_DEFAULT,
                MV4_PLUS_DEFAULT,
            ],
            thresholds: [(0, ROUND0_DEFAULT), (1, ROUND1_DEFAULT), (2, ROUND2_DEFAULT), (3, ROUND3_DEFAULT)],
            threshold_count: 4,
        }
    }

    /// The configured entries.
    pub open spec fn configured(&self) -> Seq<(u8, u32)> {
        self.thresholds@.take(if self.threshold_count <= 4 { self.threshold_count as int } else { 4 })
    }

    /// The minimum hand value for `round`: the first configured entry for
    /// that round, else the default configuration's, else zero.
    pub open spec fn spec_min_value_for_round(&self, round: u8) -> u32 {
        match first_threshold(self.configured(), round) {
            Some(v) => v,
            None => match first_threshold(Self::spec_default().configured(), round) {
                Some(v) => v,
                None => 0,
            },
        }
    }

    /// The built-in default configuration.
    pub fn default_config() -> (c: Self)
        ensures
            c == Self::spec_default(),
    {
        MulliganConfig {
            land_value_bits: LAND_VALUE_DEFAULT,
            mv_value_bits: [
                MV0_DEFAULT,
                MV1_DEFAULT,
                MV2_DEFAULT,
                MV3_DEFAULT,
                MV4_PLUS_DEFAULT,
                MV4_PLUS_DEFAULT,
                MV4_PLUS_DEFAULT,
                MV4_PLUS_DEFAULT,
            ],
            thresholds: [(0, ROUND0_DEFAULT), (1, ROUND1_DEFAULT), (2, ROUND2_DEFAULT), (3, ROUND3_DEFAULT)],
            threshold_count: 4,
        }
    }

    /// The curve value (as bits) of a non-land card: the curve entry at the
    /// card's `curve_index`.
    pub fn curve_value_bits(&self, card: &SimCard) -> (v: u32)
        ensures
            v == self.mv_value_bits@[card.curve_index()],
    {
        let effective: u8 = if card.is_x_cost() {
            let raised: u16 = card.cmc as u16 + 2;
            if raised < 7 { raised as u8 } else { 7 }
        } else {
            if card.cmc < 7 { card.cmc } else { 7 }
        };
        self.mv_value_bits[effective as usize]
    }

    /// Minimum hand value required to keep in the given mulligan round
    /// (0 = the initial seven-card hand): the configured value for that
    /// round, else the default configuration's, else zero.
    pub fn min_value_for_round(&self, round: u8) -> (v: u32)
        requires
            self.threshold_count <= 4 || first_threshold(self.configured(), round) is Some,
        ensures
            v == self.spec_min_value_for_round(round),
    {
        let count: usize = if self.threshold_count <= 4 { self.threshold_count as usize } else { 4 };
        match find_threshold(&self.thresholds, count, round) {
            Some(v) => v,
            None => {
                let default = Self::default_config();
                match find_threshold(&default.thresholds, 4, round) {
                    Some(v) => v,
                    None => 0,
                }
            },
        }
    }
}

/// A value found among the first `k` entries stays the first found among any
/// longer prefix.
proof fn lemma_first_threshold_prefix(s: Seq<(u8, u32)>, k: int, m: int, round: u8)
    requires
        0 <= k <= m <= s.len(),
        first_threshold(s.take(k), round) is Some,
    ensures
        first_threshold(s.take(m), round) == first_threshold(s.take(k), round),
    decreases m - k,
{
    if m > k {
        lemma_first_threshold_prefix(s, k, m - 1, round);
        assert(s.take(m).drop_last() =~= s.take(m - 1));
    }
}

/// The first of the first `count` entries whose round is `round`.
fn find_threshold(entries: &[(u8, u32); 4], count: usize, round: u8) -> (r: Option<u32>)
    requires
        count <= 4,
    ensures
        r == first_threshold(entries@.take(count as int), round),
{
    let mut i: usize = 0;
    while i < count
        invariant
            i <= count <= 4,
            first_threshold(entries@.take(i as int), round) is None,
        decreases count - i,
    {
        let entry = entries[i];
        assert(entries@.take(i + 1).drop_last() =~= entries@.take(i as int));
        if entry.0 == round {
            proof {
                lemma_first_threshold_prefix(entries@, i + 1, count as int, round);
            }
            return Some(entry.1);
        }
        i += 1;
    }
    None
}

/// Per-color count of the colored mana pips in the costs of a deck's non-land
/// cards. Dividing each by their sum gives the deck's pip weights.
#[derive(Clone, Copy, Debug)]
pub struct PipTotals {
    pub w: u64,
    pub u: u64,
    pub b: u64,
    pub r: u64,
    pub g: u64,
}

/// The colored pips of color `color` (0 = W, 1 = U, 2 = B, 3 = R, 4 = G) in `card`'s cost.
pub open spec fn pips_of(card: SimCard, color: int) -> u8 {
    if color == 0 {
        card.mana_w
    } else if color == 1 {
        card.mana_u
    } else if color == 2 {
        card.mana_b
    } else if color == 3 {
        card.mana_r
    } else {
        card.mana_g
    }
}

/// Total pips of `color` over the non-land cards of `cards`.
pub open spec fn pip_total(cards: Seq<SimCard>, color: int) -> int
    decreases cards.len(),
{
    if cards.len() == 0 {
        0
    } else {
        pip_total(cards.drop_last(), color) + if cards.last().spec_is_land() {
            0
        } else {
            pips_of(cards.last(), color) as int
        }
    }
}

proof fn lemma_pip_total_bound(cards: Seq<SimCard>, color: int)
    ensures
        0 <= pip_total(cards, color) <= 255 * cards.len(),
    decreases cards.len(),
{
    if cards.len() > 0 {
        lemma_pip_total_bound(cards.drop_last(), color);
    }
}

/// The pip totals of a deck: none for an empty deck, and one more card adds
/// its white pips to color 0, its blue to 1, its black to 2, its red to 3
/// and its green to 4, unless it is a land.
pub proof fn lemma_pip_totals_by_color(cards: Seq<SimCard>, card: SimCard)
    ensures
        forall|color: int| pip_total(Seq::<SimCard>::empty(), color) == 0,
        pip_total(cards.push(card), 0) == pip_total(cards, 0) + if card.spec_is_land() {
            0
        } else {
            card.mana_w as int
        },
        pip_total(cards.push(card), 1) == pip_total(cards, 1) + if card.spec_is_land() {
            0
        } else {
            card.mana_u as int
        },
        pip_total(cards.push(card), 2) == pip_total(cards, 2) + if card.spec_is_land() {
            0
        } else {
            card.mana_b as int
        },
        pip_total(cards.push(card), 3) == pip_total(cards, 3) + if card.spec_is_land() {
            0
        } else {
            card.mana_r as int
        },
        pip_total(cards.push(card), 4) == pip_total(cards, 4) + if card.spec_is_land() {
            0
        } else {
            card.mana_g as int
        },
{
    assert(cards.push(card).drop_last() =~= cards);
}

/// Counts, per color, the colored pips in the costs of the deck's non-land
/// cards (the integer half of the deck's pip weights).
pub fn deck_pip_totals(cards: &[SimCard]) -> (t: PipTotals)
    requires
        cards@.len() <= 0xffff_ffff,
    ensures
        t.w == pip_total(cards@, 0),
        t.u == pip_total(cards@, 1),
        t.b == pip_total(cards@, 2),
        t.r == pip_total(cards@, 3),
        t.g == pip_total(cards@, 4),
{
    let mut t = PipTotals { w: 0, u: 0, b: 0, r: 0, g: 0 };
    let mut i: usize = 0;
    while i < cards.len()
        invariant
            i <= cards@.len() <= 0xffff_ffff,
            t.w == pip_total(cards@.take(i as int), 0),
            t.u == pip_total(cards@.take(i as int), 1),
            t.b == pip_total(cards@.take(i as int), 2),
            t.r == pip_total(cards@.take(i as int), 3),
            t.g == pip_total(cards@.take(i as int), 4),
        decreases cards@.len() - i,
    {
        let card = cards[i];
        proof {
            assert(cards@.take(i + 1).drop_last() =~= cards@.take(i as int));
            assert(cards@.take(i + 1).last() == card);
            lemma_pip_total_bound(cards@.take(i as int), 0);
            lemma_pip_total_bound(cards@.take(i as int), 1);
            lemma_pip_total_bound(cards@.take(i as int), 2);
            lemma_pip_total_bound(cards@.take(i as int), 3);
            lemma_pip_total_bound(cards@.take(i as int), 4);
        }
        if !card.is_land() {
            t.w = t.w + card.mana_w as u64;
            t.u = t.u + card.mana_u as u64;
            t.b = t.b + card.mana_b as u64;
            t.r = t.r + card.mana_r as u64;
            t.g = t.g + card.mana_g as u64;
        }
        i += 1;
    }
    assert(cards@.take(cards@.len() as int) =~= cards@);
    t
}

/// Per-game statistics.
pub struct GameRecord {
    /// Lands in play at the end of turns 1-6.
    pub lands_in_play: [u8; 6],
    /// Mana pool size before spending, turns 1-6.
    pub mana_available: [u8; 6],
    /// WUBRGC bitmask of the mana available, turns 1-6.
    pub color_mask: [u8; 6],
    /// Castable non-land cards in hand at the start of the main phase, turns 1-6.
    pub castable_count: [u8; 6],
    /// Hand size at the start of the main phase (after the land drop, before
    /// casting), turns 1-6.
    pub hand_size: [u8; 6],
    /// Highest mana value cast, turns 1-6 (0 = nothing cast).
    pub cmc_top_cast: [u8; 6],
    /// Spells cast, turns 1-6.
    pub spells_cast_per_turn: [u8; 6],
    /// 1 if a land was played, turns 1-6.
    pub land_played: [u8; 6],
    /// Turn each color (W, U, B, R, G, C) first appeared in the pool (0 = never).
    pub color_first_turn: [u8; 6],
    pub total_turns: u8,
    pub total_spells_cast: u8,
    pub total_missed_land_drops: u8,
    /// Turn of the first missed land drop (0 = never).
    pub first_missed_land_turn: u8,
    pub peak_mana: u8,
    pub total_cards_drawn: u8,
    pub damage_dealt: u16,
    /// Turn the commander was first cast (0 = never).
    pub commander_cast_turn: u8,
    /// Bit i: formation i was fully assembled on the battlefield.
    pub formation_assembled_mask: u32,
    /// Bit i: all cards of formation i were seen.
    pub formation_seen_mask: u32,
    /// Bit i: at least half of formation i's cards were on the battlefield together.
    pub formation_partial_mask: u32,
    /// Turn formation i was first assembled (0 = never); slot 31 carries the
    /// creature count at turn 5 when fewer than 32 mechanics are tracked.
    pub formation_first_turn: [u8; 32],
    /// Bit 0 = combo win, bit 1 = took a mulligan, bit 2 = opened with no land.
    pub flags: u8,
}

/// The mathematical content of a `GameRecord`, arrays as sequences.
#[verifier::ext_equal]
pub struct RecordView {
    pub lands_in_play: Seq<u8>,
    pub mana_available: Seq<u8>,
    pub color_mask: Seq<u8>,
    pub castable_count: Seq<u8>,
    pub hand_size: Seq<u8>,
    pub cmc_top_cast: Seq<u8>,
    pub spells_cast_per_turn: Seq<u8>,
    pub land_played: Seq<u8>,
    pub color_first_turn: Seq<u8>,
    pub total_turns: u8,
    pub total_spells_cast: u8,
    pub total_missed_land_drops: u8,
    pub first_missed_land_turn: u8,
    pub peak_mana: u8,
    pub total_cards_drawn: u8,
    pub damage_dealt: u16,
    pub commander_cast_turn: u8,
    pub formation_assembled_mask: u32,
    pub formation_seen_mask: u32,
    pub formation_partial_mask: u32,
    pub formation_first_turn: Seq<u8>,
    pub flags: u8,
}

/// A sequence of `len` zeros.
pub open spec fn zeros(len: nat) -> Seq<u8> {
    Seq::new(len, |i: int| 0u8)
}

impl RecordView {
    /// The record of a game that has not started.
    pub open spec fn empty() -> RecordView {
        RecordView {
            lands_in_play: zeros(6),
            mana_available: zeros(6),
            color_mask: zeros(6),
            castable_count: zeros(6),
            hand_size: zeros(6),
            cmc_top_cast: zeros(6),
            spells_cast_per_turn: zeros(6),
            land_played: zeros(6),
            color_first_turn: zeros(6),
            total_turns: 0,
            total_spells_cast: 0,
            total_missed_land_drops: 0,
            first_missed_land_turn: 0,
            peak_mana: 0,
            total_cards_drawn: 0,
            damage_dealt: 0,
            commander_cast_turn: 0,
            formation_assembled_mask: 0,
            formation_seen_mask: 0,
            formation_partial_mask: 0,
            formation_first_turn: zeros(32),
            flags: 0,
        }
    }

    pub open spec fn combo_win(&self) -> bool {
        self.flags & 0x01 != 0
    }

    pub open spec fn took_mulligan(&self) -> bool {
        self.flags & 0x02 != 0
    }

    pub open spec fn opened_landless(&self) -> bool {
        self.flags & 0x04 != 0
    }
}

impl View for GameRecord {
    type V = RecordView;

    open spec fn view(&self) -> RecordView {
        RecordView {
            lands_in_play: self.lands_in_play@,
            mana_available: self.mana_available@,
            color_mask: self.color_mask@,
            castable_count: self.castable_count@,
            hand_size: self.hand_size@,
            cmc_top_cast: self.cmc_top_cast@,
            spells_cast_per_turn: self.spells_cast_per_turn@,
            land_played: self.land_played@,
            color_first_turn: self.color_first_turn@,
            total_turns: self.total_turns,
            total_spells_cast: self.total_spells_cast,
            total_missed_land_drops: self.total_missed_land_drops,
            first_missed_land_turn: self.first_missed_land_turn,
            peak_mana: self.peak_mana,
            total_cards_drawn: self.total_cards_drawn,
            damage_dealt: self.damage_dealt,
            commander_cast_turn: self.commander_cast_turn,
            formation_assembled_mask: self.formation_assembled_mask,
            formation_seen_mask: self.formation_seen_mask,
            formation_partial_mask: self.formation_partial_mask,
            formation_first_turn: self.formation_first_turn@,
            flags: self.flags,
        }
    }
}

impl GameRecord {
    /// A record with every statistic at zero.
    pub fn new() -> (r: Self)
        ensures
            r@ =~= RecordView::empty(),
    {
        GameRecord {
            lands_in_play: [0; 6],
            mana_available: [0; 6],
            color_mask: [0; 6],
            castable_count: [0; 6],
            hand_size: [0; 6],
            cmc_top_cast: [0; 6],
            spells_cast_per_turn: [0; 6],
            land_played: [0; 6],
            color_first_turn: [0; 6],
            total_turns: 0,
            total_spells_cast: 0,
            total_missed_land_drops: 0,
            first_missed_land_turn: 0,
            peak_mana: 0,
            total_cards_drawn: 0,
            damage_dealt: 0,
            commander_cast_turn: 0,
            formation_assembled_mask: 0,
            formation_seen_mask: 0,
            formation_partial_mask: 0,
            formation_first_turn: [0; 32],
            flags: 0,
        }
    }

    /// True if the game ended by a combo win.
    pub fn combo_win(&self) -> (b: bool)
        ensures
            b == self@.combo_win(),
    {
        self.flags & 0x01 != 0
    }

    /// True if the opening hand was mulliganed.
    pub fn took_mulligan(&self) -> (b: bool)
        ensures
            b == self@.took_mulligan(),
    {
        self.flags & 0x02 != 0
    }
}

} // verus!
