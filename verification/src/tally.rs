//! Integer tallies over game records that the batch statistics are built on.

use vstd::prelude::*;
use crate::types::{GameRecord, RecordView};

verus! {

/// Snapshot turns among the first `k` whose highest mana value cast is `c`.
pub open spec fn turns_topping_at(rec: RecordView, c: int, k: int) -> int
    decreases k,
{
    if k <= 0 {
        0
    } else {
        turns_topping_at(rec, c, k - 1) + if rec.cmc_top_cast[k - 1] == c {
            1int
        } else {
            0int
        }
    }
}

/// Snapshot turns, over all of `recs`, whose highest mana value cast is `c`.
pub open spec fn cmc_tally(recs: Seq<RecordView>, c: int) -> int
    decreases recs.len(),
{
    if recs.len() == 0 {
        0
    } else {
        cmc_tally(recs.drop_last(), c) + turns_topping_at(recs.last(), c, 6)
    }
}

/// The records' views.
pub open spec fn views(records: Seq<GameRecord>) -> Seq<RecordView> {
    records.map_values(|r: GameRecord| r@)
}

proof fn lemma_turns_topping_bounded(rec: RecordView, c: int, k: int)
    ensures
        0 <= turns_topping_at(rec, c, k) <= if k < 0 { 0 } else { k },
    decreases k,
{
    if k > 0 {
        lemma_turns_topping_bounded(rec, c, k - 1);
    }
}

proof fn lemma_cmc_tally_bounded(recs: Seq<RecordView>, c: int)
    ensures
        0 <= cmc_tally(recs, c) <= 6 * recs.len(),
    decreases recs.len(),
{
    if recs.len() > 0 {
        lemma_cmc_tally_bounded(recs.drop_last(), c);
        lemma_turns_topping_bounded(recs.last(), c, 6);
    }
}

/// How often each mana value from 1 to 7 was the highest cast in a snapshot
/// turn, over all records; entry 0 stays 0.
pub fn cmc_frequencies(records: &[GameRecord]) -> (f: [u64; 8])
    requires
        6 * records@.len() <= u64::MAX,
    ensures
        f@[0] == 0,
        forall|c: int| 1 <= c < 8 ==> #[trigger] f@[c] == cmc_tally(views(records@), c),
{
    let mut f: [u64; 8] = [0; 8];
    let mut i: usize = 0;
    while i < records.len()
        invariant
            i <= records@.len(),
            6 * records@.len() <= u64::MAX,
            f@.len() == 8,
            f@[0] == 0,
            forall|c: int| 1 <= c < 8 ==> #[trigger] f@[c] == cmc_tally(views(records@.take(i as int)), c),
        decreases records@.len() - i,
    {
        let ghost base = f@;
        let ghost rec = records@[i as int]@;
        proof {
            assert(views(records@.take(i + 1)).drop_last() =~= views(records@.take(i as int)));
            assert(views(records@.take(i + 1)).last() == rec);
            assert forall|c: int| 1 <= c < 8 implies base[c] <= 6 * i by {
                lemma_cmc_tally_bounded(views(records@.take(i as int)), c);
            }
        }
        let mut t: usize = 0;
        while t < 6
            invariant
                t <= 6,
                i < records@.len(),
                6 * records@.len() <= u64::MAX,
                rec == records@[i as int]@,
                f@.len() == 8,
                f@[0] == 0,
                forall|c: int| 1 <= c < 8 ==> base[c] <= 6 * i,
                forall|c: int| 1 <= c < 8 ==> #[trigger] f@[c] == base[c] + turns_topping_at(rec, c, t as int),
            decreases 6 - t,
        {
            proof {
                assert forall|c: int| 1 <= c < 8 implies turns_topping_at(rec, c, t as int) <= t by {
                    lemma_turns_topping_bounded(rec, c, t as int);
                }
            }
            let c = records[i].cmc_top_cast[t] as usize;
            if c > 0 && c < 8 {
                f[c] = f[c] + 1;
            }
            t += 1;
        }
        i += 1;
    }
    assert(records@.take(records@.len() as int) =~= records@);
    f
}

/// The first snapshot turn among the first `k` in which a spell was cast.
pub open spec fn first_spell_turn_within(rec: RecordView, k: int) -> Option<int>
    decreases k,
{
    if k <= 0 {
        None
    } else {
        match first_spell_turn_within(rec, k - 1) {
            Some(t) => Some(t),
            None => if rec.spells_cast_per_turn[k - 1] > 0 {
                Some(k)
            } else {
                None
            },
        }
    }
}

proof fn lemma_first_spell_stays(rec: RecordView, k: int, m: int)
    requires
        0 <= k <= m,
        first_spell_turn_within(rec, k) is Some,
    ensures
        first_spell_turn_within(rec, m) == first_spell_turn_within(rec, k),
    decreases m - k,
{
    if m > k {
        lemma_first_spell_stays(rec, k, m - 1);
    }
}

/// The first snapshot turn (1 to 6) in which a spell was cast, if any.
pub fn first_spell_turn(rec: &GameRecord) -> (r: Option<u8>)
    ensures
        match r {
            Some(t) => first_spell_turn_within(rec@, 6) == Some(t as int),
            None => first_spell_turn_within(rec@, 6) is None,
        },
{
    let mut t: usize = 0;
    while t < 6
        invariant
            t <= 6,
            first_spell_turn_within(rec@, t as int) is None,
        decreases 6 - t,
    {
        if rec.spells_cast_per_turn[t] > 0 {
            proof {
                lemma_first_spell_stays(rec@, t + 1, 6);
            }
            return Some((t + 1) as u8);
        }
        t += 1;
    }
    None
}

} // verus!
