use mamo_sim::game_engine::Game;
use mamo_sim::rng::Rng;
use mamo_sim::types::{advantage, GameRecord, SimCard, SimMechanic};

fn mixed_deck() -> Vec<SimCard> {
    let mut cards = Vec::new();
    for i in 0..40u8 {
        let land = i % 3 == 0;
        let colors = [0x01u8, 0x02, 0x04, 0x08, 0x10, 0x20];
        let mut c = SimCard {
            flags: 0,
            cmc: 0,
            power: 0,
            toughness: 0,
            color_mask: 0,
            mana_w: 0,
            mana_u: 0,
            mana_b: 0,
            mana_r: 0,
            mana_g: 0,
            mana_generic: 0,
            formation_role: 0,
            mechanic_mask: 0,
        };
        if land {
            c.flags = if i % 2 == 0 { 0x09 } else { 0x01 };
            c.color_mask = colors[(i as usize / 3) % 6] | if i % 4 == 0 { 0x02 } else { 0 };
        } else {
            c.cmc = 1 + i % 5;
            c.mana_generic = c.cmc - 1;
            if i % 5 == 1 { c.mana_w = 1; } else if i % 5 == 2 { c.mana_u = 1; } else { c.mana_generic += 1; }
            c.flags = if i % 2 == 1 { 0x02 } else if i % 7 == 0 { 0x04 } else { 0 };
            c.power = i % 4;
        }
        if i == 5 {
            c.flags |= 0x10;
        }
        cards.push(c);
    }
    cards
}

fn mechanics() -> Vec<SimMechanic> {
    vec![
        SimMechanic { activation: 0, advantage: advantage::CARD_DRAW, dimension: 0, card_mask: 0b11, prereq_mask: 0 },
        SimMechanic { activation: 0, advantage: advantage::TOKEN_CREATION, dimension: 0, card_mask: 0b1_0000, prereq_mask: 0b1 },
        SimMechanic { activation: 0, advantage: advantage::DIRECT_DAMAGE, dimension: 0, card_mask: 0b1000_0000_0000, prereq_mask: 0 },
    ]
}

fn check_record(rec: &GameRecord, mechs: &[SimMechanic]) {
    let mech_count = mechs.len();
    if rec.combo_win() {
        assert!((0..mech_count).any(|m| mechs[m].advantage == advantage::COMBO_WIN
            && rec.formation_assembled_mask & (1 << m) != 0));
    }
    let k = (rec.total_turns as usize).min(6);
    for i in 0..k {
        for j in i..k {
            assert!(rec.lands_in_play[i] <= rec.lands_in_play[j]);
        }
        assert!(rec.mana_available[i] <= rec.peak_mana);
        for c in 0..6 {
            if rec.color_mask[i] & (1 << c) != 0 {
                assert!(rec.color_first_turn[c] >= 1 && rec.color_first_turn[c] as usize <= i + 1);
            }
        }
    }
    for i in 0..k {
        let before = if i == 0 { 0 } else { rec.lands_in_play[i - 1] };
        assert_eq!(rec.lands_in_play[i], before + rec.land_played[i]);
    }
    for i in 0..k {
        assert!(rec.hand_size[i] <= 8);
        assert!(rec.castable_count[i] <= rec.hand_size[i]);
        assert!(rec.land_played[i] <= 1);
        assert!(rec.color_mask[i] < 64);
        if rec.spells_cast_per_turn[i] == 0 {
            assert_eq!(rec.cmc_top_cast[i], 0);
        }
        if rec.land_played[i] == 0 && (rec.lands_in_play[i] as usize) < i + 1 {
            assert!(rec.first_missed_land_turn >= 1 && rec.first_missed_land_turn as usize <= i + 1);
        }
    }
    let first = rec.first_missed_land_turn as usize;
    if first >= 1 && first <= k {
        assert_eq!(rec.land_played[first - 1], 0);
        assert!((rec.lands_in_play[first - 1] as usize) < first);
    }
    for c in 0..6 {
        let f = rec.color_first_turn[c] as usize;
        if f >= 1 && f <= k {
            assert!(rec.color_mask[f - 1] & (1 << c) != 0);
        }
    }
    assert!(rec.commander_cast_turn <= rec.total_turns);
    let cmd = rec.commander_cast_turn as usize;
    if cmd >= 1 && cmd <= k {
        assert!(rec.spells_cast_per_turn[cmd - 1] >= 1);
    }
    assert!(rec.total_missed_land_drops <= rec.total_turns);
    assert_eq!(rec.total_missed_land_drops == 0, rec.first_missed_land_turn == 0);
    assert!(rec.first_missed_land_turn <= rec.total_turns);
    for c in 0..6 {
        assert!(rec.color_first_turn[c] <= rec.total_turns);
    }
    for m in 0..mech_count {
        assert_eq!(rec.formation_assembled_mask & (1 << m) != 0, rec.formation_first_turn[m] != 0);
    }
}

#[test]
fn records_keep_their_statistics_consistent() {
    let cards = mixed_deck();
    let mechs = mechanics();
    for seed in 0..40u32 {
        for max_turns in [0u8, 3, 6, 12] {
            let mut rng = Rng::new(seed);
            let game = Game::deal(&cards, &mut rng);
            let rec = game.play(&cards, &mechs, max_turns);
            assert!(rec.total_turns <= max_turns);
            check_record(&rec, &mechs);
            assert!(!rec.took_mulligan());
        }
    }
}

#[test]
fn mulligan_is_recorded_and_keeps_hand_size() {
    let cards = mixed_deck();
    for seed in 0..20u32 {
        let mut rng = Rng::new(seed);
        let mut game = Game::deal(&cards, &mut rng);
        game.mulligan(&cards);
        game.mulligan(&cards);
        assert_eq!(game.hand().len(), 7);
        let rec = game.play(&cards, &mechanics(), 8);
        assert!(rec.took_mulligan());
        check_record(&rec, &mechanics());
    }
}

#[test]
fn same_seed_same_record() {
    let cards = mixed_deck();
    let mechs = mechanics();
    let play = |seed: u32| {
        let mut rng = Rng::new(seed);
        Game::deal(&cards, &mut rng).play(&cards, &mechs, 15)
    };
    let a = play(77);
    let b = play(77);
    assert_eq!(a.lands_in_play, b.lands_in_play);
    assert_eq!(a.cmc_top_cast, b.cmc_top_cast);
    assert_eq!(a.damage_dealt, b.damage_dealt);
    assert_eq!(a.formation_first_turn, b.formation_first_turn);
}

#[test]
fn combo_win_comes_from_an_assembled_combo_formation() {
    let cards = mixed_deck();
    let mut mechs = mechanics();
    mechs.push(SimMechanic { activation: 0, advantage: advantage::COMBO_WIN, dimension: 0, card_mask: 1 << 9, prereq_mask: 0 });
    let mut wins = 0;
    for seed in 0..60u32 {
        let mut rng = Rng::new(seed);
        let rec = Game::deal(&cards, &mut rng).play(&cards, &mechs, 20);
        check_record(&rec, &mechs);
        if rec.combo_win() {
            wins += 1;
            assert_ne!(rec.formation_assembled_mask & 0b1000, 0);
            assert_eq!(rec.formation_first_turn[3], rec.total_turns);
        }
    }
    assert!(wins > 0);
}
