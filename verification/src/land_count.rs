//! Lands reach the battlefield by the land drop alone, one per turn, when no
//! card is both a commander and a land: the lands in play at each snapshot
//! turn are the running total of the land drops.

use vstd::prelude::*;
use crate::game_model::{
    apply_advantage, cast_spells, best_castable, check_formation, check_formations_from,
    commander_step, draw_for_turn, draw_if_room, first_commander,
    first_land, land_drop, lands_on_battlefield, lemma_best_castable_in_hand,
    lemma_first_land_in_hand, lemma_formations_frame, main_phase, end_of_turn, formation_count,
    remove_at, stays_on_battlefield, table_start, GameView, TableView, TurnSummary,
};
use crate::mana_pool::{ManaPool, min_int};
use crate::types::{RecordView, SimCard, SimMechanic};

verus! {

/// No card is both a commander and a land.
pub open spec fn no_land_commander(cards: Seq<SimCard>) -> bool {
    forall|i: int|
        0 <= i < cards.len() && #[trigger] cards[i].spec_is_commander() ==> !cards[i].spec_is_land()
}

/// The cards still to come, the hand and the undrawn library, hold no card
/// twice, and none of their lands is on the battlefield; the commander is a
/// card flagged as one.
pub open spec fn lands_apart(cards: Seq<SimCard>, t: TableView) -> bool {
    let n = t.n();
    &&& n <= cards.len()
    &&& 0 <= t.lib_top <= n
    &&& t.battlefield.len() == n
    &&& forall|i: int| 0 <= i < t.hand.len() ==> #[trigger] t.hand[i] < n
    &&& forall|j: int| 0 <= j < n ==> #[trigger] t.library[j] < n
    &&& forall|i: int, k: int| 0 <= i < k < t.hand.len() ==> #[trigger] t.hand[i] != #[trigger] t.hand[k]
    &&& forall|j: int, k: int|
        t.lib_top <= j < k < n ==> #[trigger] t.library[j] != #[trigger] t.library[k]
    &&& forall|i: int, j: int|
        0 <= i < t.hand.len() && t.lib_top <= j < n ==> #[trigger] t.hand[i] != #[trigger] t.library[j]
    &&& forall|i: int|
        0 <= i < t.hand.len() && cards[t.hand[i] as int].spec_is_land()
            ==> !t.battlefield[#[trigger] t.hand[i] as int]
    &&& forall|j: int|
        t.lib_top <= j < n && cards[t.library[j] as int].spec_is_land()
            ==> !t.battlefield[#[trigger] t.library[j] as int]
    &&& (t.commander matches Some(c) ==> 0 <= c < n && cards[c].spec_is_commander())
}

/// Lands on the battlefield of `t`.
pub open spec fn lands_of(cards: Seq<SimCard>, t: TableView) -> int {
    lands_on_battlefield(cards, t.battlefield, t.n())
}

/// Putting card `x` onto the battlefield adds one land exactly when it is a
/// land that was not there.
pub proof fn lemma_lands_add(cards: Seq<SimCard>, bf: Seq<bool>, x: int, k: int)
    requires
        0 <= x < bf.len(),
        0 <= k <= bf.len(),
    ensures
        lands_on_battlefield(cards, bf.update(x, true), k) == lands_on_battlefield(cards, bf, k) + if x
            < k && cards[x].spec_is_land() && !bf[x] {
            1int
        } else {
            0int
        },
    decreases k,
{
    if k > 0 {
        lemma_lands_add(cards, bf, x, k - 1);
    }
}

/// An empty battlefield holds no land.
pub proof fn lemma_no_lands(cards: Seq<SimCard>, bf: Seq<bool>, k: int)
    requires
        k <= bf.len(),
        forall|i: int| 0 <= i < bf.len() ==> !bf[i],
    ensures
        lands_on_battlefield(cards, bf, k) == 0,
    decreases k,
{
    if k > 0 {
        lemma_no_lands(cards, bf, k - 1);
    }
}

/// The first commander found is a card flagged as one.
pub proof fn lemma_first_commander_is_one(cards: Seq<SimCard>, k: int)
    ensures
        first_commander(cards, k) matches Some(c) ==> 0 <= c < k && cards[c].spec_is_commander(),
    decreases k,
{
    if k > 0 {
        lemma_first_commander_is_one(cards, k - 1);
    }
}

/// Drawing keeps the cards to come apart and the battlefield as it was.
pub proof fn lemma_draw_apart(cards: Seq<SimCard>, t: TableView)
    requires
        lands_apart(cards, t),
    ensures
        lands_apart(cards, draw_for_turn(t)),
        draw_for_turn(t).battlefield == t.battlefield,
        lands_apart(cards, draw_if_room(t)),
        draw_if_room(t).battlefield == t.battlefield,
{
    if t.lib_top < t.n() {
        let d = t.library[t.lib_top];
        let h = t.hand.push(d);
        assert forall|i: int, k: int| 0 <= i < k < h.len() implies #[trigger] h[i] != #[trigger] h[k] by {
            if k == t.hand.len() {
                assert(t.hand[i] != t.library[t.lib_top]);
            } else {
                assert(t.hand[i] != t.hand[k]);
            }
        }
        assert forall|i: int, j: int| 0 <= i < h.len() && t.lib_top + 1 <= j < t.n() implies #[trigger] h[i]
            != #[trigger] t.library[j] by {
            if i == t.hand.len() {
                assert(t.library[t.lib_top] != t.library[j]);
            } else {
                assert(t.hand[i] != t.library[j]);
            }
        }
        assert forall|i: int| 0 <= i < h.len() && cards[h[i] as int].spec_is_land()
            implies !t.battlefield[#[trigger] h[i] as int] by {
            if i == t.hand.len() {
                assert(t.library[t.lib_top] == h[i]);
            } else {
                assert(t.hand[i] == h[i]);
            }
        }
    }
}

/// The land drop keeps the cards to come apart, and adds one land to the
/// battlefield when it plays one.
pub proof fn lemma_land_drop_apart(cards: Seq<SimCard>, t: TableView)
    requires
        lands_apart(cards, t),
    ensures
        lands_apart(cards, land_drop(cards, t).0),
        lands_of(cards, land_drop(cards, t).0) == lands_of(cards, t) + if land_drop(cards, t).1 {
            1int
        } else {
            0int
        },
{
    lemma_first_land_in_hand(cards, t.hand);
    match first_land(cards, t.hand) {
        Some(p) => {
            let x = t.hand[p] as int;
            lemma_lands_add(cards, t.battlefield, x, t.n());
            lemma_remove_apart(cards, t, p, x);
        },
        None => {},
    }
}

/// Taking the card at position `p` out of the hand, whether or not it goes
/// onto the battlefield, keeps the cards to come apart.
proof fn lemma_remove_apart(cards: Seq<SimCard>, t: TableView, p: int, x: int)
    requires
        lands_apart(cards, t),
        0 <= p < t.hand.len(),
        x == t.hand[p],
    ensures
        lands_apart(
            cards,
            TableView { battlefield: t.battlefield.update(x, true), hand: remove_at(t.hand, p), ..t },
        ),
        lands_apart(cards, TableView { hand: remove_at(t.hand, p), ..t }),
{
    let h = remove_at(t.hand, p);
    let last = t.hand.len() - 1;
    let bf = t.battlefield.update(x, true);
    assert forall|i: int, k: int| 0 <= i < k < h.len() implies #[trigger] h[i] != #[trigger] h[k] by {
        let a = if i == p { last } else { i };
        let b = if k == p { last } else { k };
        assert(h[i] == t.hand[a]);
        assert(h[k] == t.hand[b]);
        if a < b {
            assert(t.hand[a] != t.hand[b]);
        } else {
            assert(t.hand[b] != t.hand[a]);
        }
    }
    assert forall|i: int, j: int| 0 <= i < h.len() && t.lib_top <= j < t.n() implies #[trigger] h[i]
        != #[trigger] t.library[j] by {
        let a = if i == p { last } else { i };
        assert(h[i] == t.hand[a]);
        assert(t.hand[a] != t.library[j]);
    }
    assert forall|i: int| 0 <= i < h.len() && cards[h[i] as int].spec_is_land()
        implies !bf[#[trigger] h[i] as int] by {
        let a = if i == p { last } else { i };
        assert(h[i] == t.hand[a]);
        if a < p {
            assert(t.hand[a] != t.hand[p]);
        } else {
            assert(t.hand[p] != t.hand[a]);
        }
        assert(!t.battlefield[t.hand[a] as int]);
    }
    assert forall|j: int| t.lib_top <= j < t.n() && cards[t.library[j] as int].spec_is_land()
        implies !bf[#[trigger] t.library[j] as int] by {
        assert(t.hand[p] != t.library[j]);
    }
    assert forall|i: int| 0 <= i < h.len() && cards[h[i] as int].spec_is_land()
        implies !t.battlefield[#[trigger] h[i] as int] by {
        let a = if i == p { last } else { i };
        assert(h[i] == t.hand[a]);
    }
}

/// Casting keeps the cards to come apart and adds no land to the
/// battlefield.
pub proof fn lemma_cast_apart(cards: Seq<SimCard>, t: TableView, pool: ManaPool, spells: u8, top: u8)
    requires
        lands_apart(cards, t),
    ensures
        ({
            let (t2, p2, s2, c2) = cast_spells(cards, t, pool, spells, top);
            &&& lands_apart(cards, t2)
            &&& lands_of(cards, t2) == lands_of(cards, t)
            &&& t2.library == t.library
        }),
    decreases t.hand.len(),
{
    if t.hand.len() > 0 {
        lemma_best_castable_in_hand(cards, t.hand, Some(pool));
        match best_castable(cards, t.hand, Some(pool)) {
            None => {},
            Some(p) => {
                let idx = t.hand[p] as int;
                let card = cards[idx];
                lemma_remove_apart(cards, t, p, idx);
                lemma_lands_add(cards, t.battlefield, idx, t.n());
                let t2 = TableView {
                    battlefield: if stays_on_battlefield(card) {
                        t.battlefield.update(idx, true)
                    } else {
                        t.battlefield
                    },
                    hand: remove_at(t.hand, p),
                    rec: RecordView {
                        total_spells_cast: (t.rec.total_spells_cast + 1) as u8,
                        ..t.rec
                    },
                    ..t
                };
                assert(lands_apart(cards, t2));
                lemma_cast_apart(
                    cards,
                    t2,
                    pool.spec_pay(card).unwrap(),
                    (spells + 1) as u8,
                    if top < card.cmc { card.cmc } else { top },
                );
            },
        }
    }
}

/// Casting the commander keeps the cards to come apart and, since it is no
/// land, adds no land to the battlefield.
pub proof fn lemma_commander_apart(
    cards: Seq<SimCard>,
    t: TableView,
    pool: ManaPool,
    spells: u8,
    top: u8,
    turn: u8,
)
    requires
        lands_apart(cards, t),
        no_land_commander(cards),
    ensures
        ({
            let (t2, s2, c2) = commander_step(cards, t, pool, spells, top, turn);
            &&& lands_apart(cards, t2)
            &&& lands_of(cards, t2) == lands_of(cards, t)
            &&& t2.library == t.library
        }),
{
    match t.commander {
        Some(ci) => {
            assert(cards[ci].spec_is_commander());
            assert(!cards[ci].spec_is_land());
            lemma_lands_add(cards, t.battlefield, ci, t.n());
            let bf = t.battlefield.update(ci, true);
            assert forall|i: int| 0 <= i < t.hand.len() && cards[t.hand[i] as int].spec_is_land()
                implies !bf[#[trigger] t.hand[i] as int] by {
                assert(t.hand[i] != ci);
            }
            assert forall|j: int| t.lib_top <= j < t.n() && cards[t.library[j] as int].spec_is_land()
                implies !bf[#[trigger] t.library[j] as int] by {
                assert(t.library[j] != ci);
            }
        },
        None => {},
    }
}

/// A formation's advantage keeps the cards to come apart and the battlefield
/// as it was.
proof fn lemma_advantage_apart(cards: Seq<SimCard>, adv: u8, turn: u8)
    ensures
        forall|x: TableView|
            lands_apart(cards, x) ==> {
                &&& lands_apart(cards, #[trigger] apply_advantage(x, adv, turn).0)
                &&& apply_advantage(x, adv, turn).0.battlefield == x.battlefield
                &&& apply_advantage(x, adv, turn).0.library == x.library
            },
{
    assert forall|x: TableView| lands_apart(cards, x) implies {
        &&& lands_apart(cards, #[trigger] apply_advantage(x, adv, turn).0)
        &&& apply_advantage(x, adv, turn).0.battlefield == x.battlefield
        &&& apply_advantage(x, adv, turn).0.library == x.library
    } by {
        lemma_draw_apart(cards, x);
        lemma_draw_apart(cards, draw_if_room(x));
    }
}

/// Checking formations keeps the cards to come apart and the battlefield as
/// it was.
pub proof fn lemma_formations_apart(
    cards: Seq<SimCard>,
    mechanics: Seq<SimMechanic>,
    t: TableView,
    turn: u8,
    m: int,
    count: int,
)
    requires
        lands_apart(cards, t),
    ensures
        lands_apart(cards, check_formations_from(cards, mechanics, t, turn, m, count).0),
        check_formations_from(cards, mechanics, t, turn, m, count).0.battlefield == t.battlefield,
        check_formations_from(cards, mechanics, t, turn, m, count).0.library == t.library,
    decreases count - m,
{
    if m < count {
        lemma_advantage_apart(cards, mechanics[m].advantage, turn);
        let (t2, ended) = check_formation(cards, mechanics, t, turn, m);
        assert(lands_apart(cards, t2) && t2.battlefield == t.battlefield && t2.library == t.library);
        if !ended {
            lemma_formations_apart(cards, mechanics, t2, turn, m + 1, count);
        }
    }
}

/// Every snapshot counts the lands of the turn before (none before turn 1)
/// plus the land played in its turn.
pub open spec fn lands_follow_drops(rec: RecordView) -> bool {
    forall|i: int|
        0 <= i < min_int(rec.total_turns as int, 6) ==> #[trigger] rec.lands_in_play[i] == (if i == 0 {
            0
        } else {
            rec.lands_in_play[i - 1] as int
        }) + rec.land_played[i]
}

/// Lands in play at the end of the turn before `turn`, by the snapshots
/// (none before turn 1).
pub open spec fn lands_before(rec: RecordView, turn: u8) -> int {
    if turn <= 1 {
        0
    } else {
        rec.lands_in_play[turn - 2] as int
    }
}

/// A game in progress whose cards to come are apart, whose snapshots follow
/// the land drops, and whose lands in play are those of its latest snapshot
/// (none before the first turn).
pub open spec fn land_count_kept(cards: Seq<SimCard>, t: TableView) -> bool {
    &&& lands_apart(cards, t)
    &&& lands_follow_drops(t.rec)
    &&& t.rec.total_turns <= 6 ==> lands_of(cards, t) == lands_before(t.rec, (t.rec.total_turns + 1) as u8)
}

/// The first half of a turn adds to the battlefield the land it plays and no
/// other land, and reports the lands then in play.
pub proof fn lemma_main_phase_land_count(cards: Seq<SimCard>, t: TableView, turn: u8)
    requires
        no_land_commander(cards),
        lands_apart(cards, t),
        t.n() <= 128,
    ensures
        ({
            let (t6, s) = main_phase(cards, t, turn);
            &&& lands_apart(cards, t6)
            &&& lands_of(cards, t6) == s.lands
            &&& s.lands == lands_of(cards, t) + if s.played { 1int } else { 0int }
        }),
{
    let t1 = draw_for_turn(t);
    lemma_draw_apart(cards, t);
    let (t2, played) = land_drop(cards, t1);
    lemma_land_drop_apart(cards, t1);
    lemma_lands_bounded(cards, t2.battlefield, t2.n());
    let (t6, s) = main_phase(cards, t, turn);
    let pool = crate::game_model::mana_pool(cards, t2.battlefield);
    let t3 = crate::game_model::record_color_firsts(t2, pool.spec_color_mask(), turn);
    assert(lands_apart(cards, t3));
    lemma_cast_apart(cards, t3, pool, 0, 0);
    let (t4, pool2, spells, top) = cast_spells(cards, t3, pool, 0, 0);
    lemma_commander_apart(cards, t4, pool2, spells, top, turn);
}

/// Lands on a battlefield are at most the cards counted.
proof fn lemma_lands_bounded(cards: Seq<SimCard>, bf: Seq<bool>, k: int)
    ensures
        lands_on_battlefield(cards, bf, k) <= if k < 0 { 0 } else { k },
        0 <= lands_on_battlefield(cards, bf, k),
    decreases k,
{
    if k > 0 {
        lemma_lands_bounded(cards, bf, k - 1);
    }
}

/// The second half of a turn snapshots the lands it was handed and keeps the
/// battlefield, so the land count stays kept.
pub proof fn lemma_end_of_turn_land_count(
    cards: Seq<SimCard>,
    mechanics: Seq<SimMechanic>,
    t6: TableView,
    s: TurnSummary,
    turn: u8,
)
    requires
        lands_apart(cards, t6),
        lands_of(cards, t6) == s.lands,
        turn >= 1,
        t6.rec.total_turns == turn - 1,
        lands_follow_drops(t6.rec),
        turn <= 6 ==> s.lands == lands_before(t6.rec, turn) + if s.played { 1int } else { 0int },
        t6.rec.lands_in_play.len() == 6,
        t6.rec.land_played.len() == 6,
        t6.rec.formation_first_turn.len() == 32,
    ensures
        land_count_kept(cards, end_of_turn(cards, mechanics, t6, s, turn).0),
{
    let rec8 = crate::game_model::turn_statistics(t6.rec, s, turn);
    let t8 = TableView { rec: rec8, ..t6 };
    let count = formation_count(mechanics);
    lemma_formations_apart(cards, mechanics, t8, turn, 0, count);
    lemma_formations_frame(cards, mechanics, t8, turn, 0, count);
    let (t9, ended) = check_formations_from(cards, mechanics, t8, turn, 0, count);
    let t10 = end_of_turn(cards, mechanics, t6, s, turn).0;
    assert(t10.battlefield == t6.battlefield);
    assert(t10.rec.total_turns == turn);
    assert(t10.rec.lands_in_play == rec8.lands_in_play);
    assert(t10.rec.land_played == rec8.land_played);
    let r = t10.rec;
    assert forall|i: int| 0 <= i < min_int(r.total_turns as int, 6) implies #[trigger] r.lands_in_play[i]
        == (if i == 0 {
        0
    } else {
        r.lands_in_play[i - 1] as int
    }) + r.land_played[i] by {
        if i < turn - 1 {
            assert(r.lands_in_play[i] == t6.rec.lands_in_play[i]);
            assert(r.land_played[i] == t6.rec.land_played[i]);
            if i > 0 {
                assert(r.lands_in_play[i - 1] == t6.rec.lands_in_play[i - 1]);
            }
        } else {
            if i > 0 {
                assert(r.lands_in_play[i - 1] == t6.rec.lands_in_play[i - 1]);
            }
        }
    }
}

/// A game dealt from a well-formed state starts with its land count kept.
pub proof fn lemma_start_land_count(cards: Seq<SimCard>, g: GameView)
    requires
        g.wf(cards.len() as int),
    ensures
        land_count_kept(cards, table_start(cards, g)),
{
    let t = table_start(cards, g);
    lemma_first_commander_is_one(cards, t.n());
    lemma_no_lands(cards, t.battlefield, t.n());
}

} // verus!
