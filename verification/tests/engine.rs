use mamo_sim::game_engine::{shuffle, Game};
use mamo_sim::rng::Rng;
use mamo_sim::types::{advantage, SimCard, SimMechanic};

fn card(flags: u8, cmc: u8, color_mask: u8, generic: u8, power: u8) -> SimCard {
    SimCard {
        flags,
        cmc,
        power,
        toughness: 0,
        color_mask,
        mana_w: 0,
        mana_u: 0,
        mana_b: 0,
        mana_r: 0,
        mana_g: 0,
        mana_generic: generic,
        formation_role: 0,
        mechanic_mask: 0,
    }
}

fn colorless_lands(n: usize) -> Vec<SimCard> {
    (0..n).map(|_| card(0x09, 0, 0x20, 0, 0)).collect()
}

#[test]
fn shuffle_is_a_permutation() {
    let mut deck: Vec<u8> = (0..50u8).collect();
    let mut rng = Rng::new(5);
    shuffle(&mut deck, &mut rng);
    assert_ne!(deck, (0..50u8).collect::<Vec<u8>>());
    deck.sort();
    assert_eq!(deck, (0..50u8).collect::<Vec<u8>>());
}

#[test]
fn shuffle_of_one_card_keeps_generator() {
    let mut deck = vec![0u8];
    let mut rng = Rng::new(8);
    shuffle(&mut deck, &mut rng);
    assert_eq!(deck, vec![0]);
    assert_eq!(rng.next_u32(), Rng::new(8).next_u32());
}

#[test]
fn deal_draws_seven_distinct_cards() {
    let cards = colorless_lands(20);
    let mut rng = Rng::new(3);
    let game = Game::deal(&cards, &mut rng);
    let mut hand = game.hand().to_vec();
    assert_eq!(hand.len(), 7);
    hand.sort();
    hand.dedup();
    assert_eq!(hand.len(), 7);
    assert!(hand.iter().all(|&c| c < 20));
    assert!(!game.took_mulligan());
}

#[test]
fn deal_from_small_deck_draws_everything() {
    let cards = colorless_lands(3);
    let mut rng = Rng::new(3);
    let game = Game::deal(&cards, &mut rng);
    let mut hand = game.hand().to_vec();
    hand.sort();
    assert_eq!(hand, vec![0, 1, 2]);
}

#[test]
fn mulligan_returns_highest_cost_spell_when_land_light() {
    let cards: Vec<SimCard> = (0..12u8).map(|i| card(0, i, 0, i, 0)).collect();
    let mut rng = Rng::new(11);
    let mut game = Game::deal(&cards, &mut rng);
    let before = game.hand().to_vec();
    let highest = *before.iter().max().unwrap();
    game.mulligan(&cards);
    let after = game.hand().to_vec();
    assert!(game.took_mulligan());
    assert_eq!(after.len(), 7);
    assert!(!after.contains(&highest));
}

#[test]
fn mulligan_returns_first_land_when_land_heavy() {
    let cards = colorless_lands(10);
    let mut rng = Rng::new(2);
    let mut game = Game::deal(&cards, &mut rng);
    let first = game.hand()[0];
    game.mulligan(&cards);
    assert!(!game.hand().contains(&first));
    assert_eq!(game.hand().len(), 7);
}

#[test]
fn all_land_deck_plays_a_land_every_turn() {
    let cards = colorless_lands(30);
    let mut rng = Rng::new(1);
    let game = Game::deal(&cards, &mut rng);
    let rec = game.play(&cards, &[], 20);
    assert_eq!(rec.lands_in_play, [1, 2, 3, 4, 5, 6]);
    assert_eq!(rec.mana_available, [1, 2, 3, 4, 5, 6]);
    assert_eq!(rec.land_played, [1; 6]);
    assert_eq!(rec.color_mask, [0x20; 6]);
    assert_eq!(rec.color_first_turn, [0, 0, 0, 0, 0, 1]);
    assert_eq!(rec.peak_mana, 20);
    assert_eq!(rec.total_cards_drawn, 20);
    assert_eq!(rec.total_missed_land_drops, 0);
    assert_eq!(rec.first_missed_land_turn, 0);
    assert_eq!(rec.total_turns, 20);
    assert_eq!(rec.total_spells_cast, 0);
    assert!(!rec.took_mulligan());
    assert!(!rec.combo_win());
    assert_eq!(rec.flags & 0x04, 0);
}

#[test]
fn landless_deck_misses_one_drop_per_turn() {
    let cards: Vec<SimCard> = (0..40).map(|_| card(0, 9, 0, 9, 0)).collect();
    let mut rng = Rng::new(4);
    let game = Game::deal(&cards, &mut rng);
    let rec = game.play(&cards, &[], 255);
    assert_eq!(rec.total_missed_land_drops, 255);
    assert_eq!(rec.first_missed_land_turn, 1);
    assert_eq!(rec.total_turns, 255);
    assert_eq!(rec.castable_count, [0; 6]);
    assert_eq!(rec.hand_size, [8; 6]);
    assert_eq!(rec.flags, 0x04);
}

#[test]
fn two_spell_deck_records_hand_before_casting() {
    let cards = vec![card(0, 0, 0, 0, 0), card(0, 0, 0, 0, 0)];
    let mut rng = Rng::new(12);
    let game = Game::deal(&cards, &mut rng);
    let rec = game.play(&cards, &[], 1);
    assert_eq!(rec.total_missed_land_drops, 1);
    assert_eq!(rec.first_missed_land_turn, 1);
    assert_eq!(rec.castable_count[0], 2);
    assert_eq!(rec.hand_size[0], 2);
    assert_eq!(rec.spells_cast_per_turn[0], 2);
    assert_eq!(rec.cmc_top_cast[0], 0);
    assert_eq!(rec.total_spells_cast, 2);
    assert_eq!(rec.total_turns, 1);
}

#[test]
fn opening_without_land_sets_flag_bit_two() {
    let cards: Vec<SimCard> = (0..7).map(|_| card(0, 3, 0, 3, 0)).collect();
    let mut rng = Rng::new(21);
    let game = Game::deal(&cards, &mut rng);
    let rec = game.play(&cards, &[], 3);
    assert_ne!(rec.flags & 0x04, 0);
    assert!(!rec.took_mulligan());
}

#[test]
fn landless_opening_flag_survives_a_mulligan() {
    let mut cards: Vec<SimCard> = (0..20).map(|_| card(0, 3, 0, 3, 0)).collect();
    cards.extend(colorless_lands(3));
    let mut found = false;
    for seed in 0..200u32 {
        let mut rng = Rng::new(seed);
        let mut game = Game::deal(&cards, &mut rng);
        if game.hand().iter().all(|&c| c < 20) {
            game.mulligan(&cards);
            let rec = game.play(&cards, &[], 4);
            assert_eq!(rec.flags & 0x06, 0x06);
            found = true;
            break;
        }
    }
    assert!(found);
}

#[test]
fn one_land_opening_leaves_flag_bit_two_clear() {
    let mut cards: Vec<SimCard> = (0..6).map(|_| card(0, 3, 0, 3, 0)).collect();
    cards.extend(colorless_lands(1));
    let mut rng = Rng::new(30);
    let game = Game::deal(&cards, &mut rng);
    let rec = game.play(&cards, &[], 3);
    assert_eq!(rec.flags & 0x04, 0);
}

#[test]
fn combo_formation_ends_the_game() {
    let cards = colorless_lands(30);
    let combo = SimMechanic {
        activation: 0,
        advantage: advantage::COMBO_WIN,
        dimension: 0,
        card_mask: 0b1,
        prereq_mask: 0,
    };
    let mut rng = Rng::new(9);
    let game = Game::deal(&cards, &mut rng);
    let rec = game.play(&cards, &[combo], 30);
    assert!(rec.combo_win());
    assert!(rec.total_turns >= 1 && rec.total_turns <= 30);
    assert_eq!(rec.formation_first_turn[0], rec.total_turns);
    assert_eq!(rec.formation_assembled_mask, 1);
    assert_eq!(rec.formation_seen_mask, 1);
    assert_eq!(rec.formation_partial_mask, 1);
}

#[test]
fn commander_attacks_once_cast() {
    let mut cards = vec![card(0x12, 2, 0, 2, 3)];
    cards.extend(colorless_lands(30));
    let mut rng = Rng::new(6);
    let game = Game::deal(&cards, &mut rng);
    let rec = game.play(&cards, &[], 2);
    assert_eq!(rec.spells_cast_per_turn, [0, 1, 0, 0, 0, 0]);
    assert_eq!(rec.damage_dealt, 3);
    assert_eq!(rec.cmc_top_cast[1], 2);
}

#[test]
fn land_commander_enters_without_a_land_drop() {
    let mut cards = vec![card(0x11, 0, 0x20, 0, 0)];
    cards.extend((0..19).map(|_| card(0, 9, 0, 9, 0)));
    let mut checked = false;
    for seed in 0..50u32 {
        let mut rng = Rng::new(seed);
        let game = Game::deal(&cards, &mut rng);
        if game.hand().contains(&0) {
            continue;
        }
        let rec = game.play(&cards, &[], 2);
        if rec.land_played[1] != 0 {
            continue;
        }
        assert_eq!(rec.land_played, [0; 6]);
        assert_eq!(rec.lands_in_play[0], 0);
        assert_eq!(rec.lands_in_play[1], 1);
        assert_eq!(rec.commander_cast_turn, 1);
        checked = true;
        break;
    }
    assert!(checked);
}
