use mamo_sim::tally::{cmc_frequencies, first_spell_turn};
use mamo_sim::types::GameRecord;

fn record_with_tops(tops: [u8; 6]) -> GameRecord {
    let mut r = GameRecord::new();
    r.cmc_top_cast = tops;
    r
}

#[test]
fn cmc_frequencies_count_each_snapshot_top() {
    let records = vec![
        record_with_tops([1, 2, 2, 0, 7, 9]),
        record_with_tops([0, 0, 3, 3, 3, 1]),
    ];
    let f = cmc_frequencies(&records);
    assert_eq!(f, [0, 2, 2, 3, 0, 0, 0, 1]);
}

#[test]
fn cmc_frequencies_of_no_records_are_zero() {
    assert_eq!(cmc_frequencies(&[]), [0; 8]);
}

#[test]
fn first_spell_turn_finds_the_earliest_cast() {
    let mut r = GameRecord::new();
    assert_eq!(first_spell_turn(&r), None);
    r.spells_cast_per_turn = [0, 0, 2, 0, 1, 0];
    assert_eq!(first_spell_turn(&r), Some(3));
    r.spells_cast_per_turn[0] = 1;
    assert_eq!(first_spell_turn(&r), Some(1));
}
