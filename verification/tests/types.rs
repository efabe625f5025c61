use mamo_sim::types::{deck_pip_totals, GameRecord, MulliganConfig, SimCard};

fn card_with_flags(flags: u8, generic: u8) -> SimCard {
    SimCard {
        flags,
        cmc: 0,
        power: 0,
        toughness: 0,
        color_mask: 0,
        mana_w: 0,
        mana_u: 0,
        mana_b: 0,
        mana_r: 0,
        mana_g: 0,
        mana_generic: generic,
        formation_role: 0,
        mechanic_mask: 0,
    }
}

#[test]
fn card_flags_read_their_bits() {
    let c = card_with_flags(0x01 | 0x08 | 0x20, 1);
    assert!(c.is_land());
    assert!(!c.is_creature());
    assert!(c.is_mana_producing());
    assert!(!c.is_commander());
    assert!(c.is_x_cost());
    assert!(card_with_flags(0x12, 1).is_commander());
}

#[test]
fn permanent_covers_lands_creatures_and_artifacts() {
    assert!(card_with_flags(0x01, 0).is_permanent());
    assert!(card_with_flags(0x02, 3).is_permanent());
    assert!(card_with_flags(0x04, 3).is_permanent());
    assert!(!card_with_flags(0x00, 0).is_permanent());
    assert!(!card_with_flags(0x08, 2).is_permanent());
    let mut instant = card_with_flags(0x00, 0);
    instant.mana_u = 1;
    instant.cmc = 1;
    assert!(!instant.is_permanent());
}

#[test]
fn new_record_is_all_zero() {
    let r = GameRecord::new();
    assert_eq!(r.lands_in_play, [0; 6]);
    assert_eq!(r.formation_first_turn, [0; 32]);
    assert_eq!(r.total_turns, 0);
    assert!(!r.combo_win());
    assert!(!r.took_mulligan());
}

#[test]
fn record_flags() {
    let mut r = GameRecord::new();
    r.flags = 0x03;
    assert!(r.combo_win());
    assert!(r.took_mulligan());
}

#[test]
fn unknown_round_falls_back_to_zero() {
    let config = MulliganConfig::default_config();
    assert_eq!(config.min_value_for_round(9), 0);
    assert_eq!(f32::from_bits(config.min_value_for_round(3)), 2.0);
}

#[test]
fn first_configured_entry_wins() {
    let mut config = MulliganConfig::default_config();
    config.thresholds = [(1, 5.0f32.to_bits()), (1, 6.0f32.to_bits()), (0, 0), (0, 0)];
    config.threshold_count = 2;
    assert_eq!(f32::from_bits(config.min_value_for_round(1)), 5.0);
    assert_eq!(f32::from_bits(config.min_value_for_round(2)), 2.5);
}

#[test]
fn curve_value_caps_at_seven_plus() {
    let mut config = MulliganConfig::default_config();
    config.mv_value_bits = [0, 1, 2, 3, 4, 5, 6, 7];
    let mut c = card_with_flags(0, 0);
    c.cmc = 12;
    assert_eq!(config.curve_value_bits(&c), 7);
    c.cmc = 6;
    c.flags = 0x20;
    assert_eq!(config.curve_value_bits(&c), 7);
    c.cmc = 3;
    assert_eq!(config.curve_value_bits(&c), 5);
}

#[test]
fn pip_totals_skip_lands() {
    let mut a = card_with_flags(0, 0);
    a.mana_r = 3;
    let mut b = card_with_flags(0, 0);
    b.mana_u = 1;
    b.mana_r = 1;
    let mut land = card_with_flags(0x01, 0);
    land.mana_w = 9;
    let t = deck_pip_totals(&[a, b, land]);
    assert_eq!((t.w, t.u, t.b, t.r, t.g), (0, 1, 0, 4, 0));
}
