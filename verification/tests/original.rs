use mamo_sim::codec::decode;
use mamo_sim::game_engine::Game;
use mamo_sim::game_model::MAX_MULLIGANS;
use mamo_sim::rng::Rng;
use mamo_sim::types::{deck_pip_totals, GameRecord, MulliganConfig, SimCard, SimMechanic};

/// Deck-wide colored-pip weights, as the scoring of an opening hand uses them.
struct Weights {
    w: f32,
    u: f32,
    b: f32,
    r: f32,
    g: f32,
}

fn pip_weights(cards: &[SimCard]) -> Weights {
    let t = deck_pip_totals(cards);
    let total = (t.w + t.u + t.b + t.r + t.g) as f32;
    if total == 0.0 {
        return Weights { w: 0.0, u: 0.0, b: 0.0, r: 0.0, g: 0.0 };
    }
    Weights {
        w: t.w as f32 / total,
        u: t.u as f32 / total,
        b: t.b as f32 / total,
        r: t.r as f32 / total,
        g: t.g as f32 / total,
    }
}

fn land_multiplier(color_mask: u8, weights: &Weights) -> f32 {
    let mut producing = 0u8;
    let mut coverage = 0.0f32;
    if color_mask & 0x01 != 0 { producing += 1; coverage += weights.w; }
    if color_mask & 0x02 != 0 { producing += 1; coverage += weights.u; }
    if color_mask & 0x04 != 0 { producing += 1; coverage += weights.b; }
    if color_mask & 0x08 != 0 { producing += 1; coverage += weights.r; }
    if color_mask & 0x10 != 0 { producing += 1; coverage += weights.g; }
    if producing < 2 {
        return 1.0;
    }
    1.0 + 0.4 * coverage.min(1.0)
}

fn score(config: &MulliganConfig, card: &SimCard, weights: &Weights) -> f32 {
    if card.is_land() {
        f32::from_bits(config.land_value_bits) * land_multiplier(card.color_mask, weights)
    } else {
        f32::from_bits(config.curve_value_bits(card))
    }
}

/// Deals, mulligans while the hand scores under the round's threshold, and plays.
fn run_game(
    cards: &[SimCard],
    mechanics: &[SimMechanic],
    config: &MulliganConfig,
    weights: &Weights,
    rng: &mut Rng,
    max_turns: u8,
) -> GameRecord {
    let mut game = Game::deal(cards, rng);
    for round in 0..MAX_MULLIGANS {
        let value: f32 = game.hand().iter().map(|&c| score(config, &cards[c as usize], weights)).sum();
        if value >= f32::from_bits(config.min_value_for_round(round)) {
            break;
        }
        game.mulligan(cards);
    }
    game.play(cards, mechanics, max_turns)
}

fn push_default_mulligan_header(buf: &mut Vec<u8>) {
    push_mulligan_header(buf, 1.0, &[0.85, 0.8, 0.75, 0.6, 0.45, 0.4, 0.35, 0.3], &[]);
}

fn push_mulligan_header(buf: &mut Vec<u8>, land: f32, mv_values: &[f32; 8], thresholds: &[(u8, f32)]) {
    buf.extend_from_slice(&land.to_le_bytes());
    for v in mv_values {
        buf.extend_from_slice(&v.to_le_bytes());
    }
    buf.push(thresholds.len() as u8);
    buf.extend_from_slice(&[0u8; 3]);
    for (round, min_value) in thresholds {
        buf.push(*round);
        buf.extend_from_slice(&min_value.to_le_bytes());
    }
}

fn make_encoded(card_count: usize, flags: u8, cmc: u8, color_mask: u8) -> Vec<u8> {
    let mut buf = Vec::new();
    buf.extend_from_slice(&(card_count as u32).to_le_bytes());
    buf.extend_from_slice(&0u32.to_le_bytes());
    push_default_mulligan_header(&mut buf);
    for _ in 0..card_count {
        buf.push(flags);
        buf.push(cmc);
        buf.push(0);
        buf.push(0);
        buf.push(color_mask);
        buf.push(0);
        buf.push(0);
        buf.push(0);
        buf.push(0);
        buf.push(0);
        buf.push(cmc);
        buf.push(0);
        buf.extend_from_slice(&0u32.to_le_bytes());
    }
    buf
}

fn make_sim_card(flags: u8, cmc: u8, color_mask: u8, mana_w: u8, mana_u: u8, mana_b: u8, mana_r: u8, mana_g: u8) -> SimCard {
    SimCard {
        flags,
        cmc,
        power: 0,
        toughness: 0,
        color_mask,
        mana_w,
        mana_u,
        mana_b,
        mana_r,
        mana_g,
        mana_generic: 0,
        formation_role: 0,
        mechanic_mask: 0,
    }
}

#[test]
fn test_decode_basic() {
    let buf = make_encoded(5, 0x01, 0, 0x01);
    let (cards, mechanics, mulligan) = decode(&buf).unwrap();
    assert_eq!(cards.len(), 5);
    assert_eq!(mechanics.len(), 0);
    assert!(cards[0].is_land());
    assert_eq!(f32::from_bits(mulligan.land_value_bits), 1.0);
}

#[test]
fn test_land_heavy_deck_mana_available() {
    let mut buf = Vec::new();
    let card_count = 100u32;
    buf.extend_from_slice(&card_count.to_le_bytes());
    buf.extend_from_slice(&0u32.to_le_bytes());
    push_default_mulligan_header(&mut buf);
    for i in 0..100usize {
        let is_land = i < 37;
        let flags: u8 = if is_land { 0x09 } else { 0 };
        let cmc: u8 = if is_land { 0 } else { 2 };
        let color_mask: u8 = if is_land { 0x20 } else { 0 };
        buf.push(flags); buf.push(cmc); buf.push(0); buf.push(0);
        buf.push(color_mask);
        buf.push(0); buf.push(0); buf.push(0); buf.push(0); buf.push(0);
        buf.push(if is_land { 0 } else { 2 });
        buf.push(0);
        buf.extend_from_slice(&0u32.to_le_bytes());
    }

    let (cards, mechanics, mulligan) = decode(&buf).unwrap();
    assert_eq!(cards.len(), 100);
    let weights = pip_weights(&cards);

    let mut rng = Rng::new(42);
    let rec = run_game(&cards, &mechanics, &mulligan, &weights, &mut rng, 30);

    assert!(rec.lands_in_play[2] >= 2, "Should have \u{2265}2 lands by turn 3, got {}", rec.lands_in_play[2]);
    assert!(rec.peak_mana >= 4, "Peak mana should be \u{2265}4, got {}", rec.peak_mana);
    assert!(rec.total_turns > 0);
}

#[test]
fn test_reproducibility() {
    let buf = make_encoded(30, 0x09, 0, 0x20);
    let (cards, mechanics, mulligan) = decode(&buf).unwrap();
    let weights = pip_weights(&cards);

    let mut rng1 = Rng::new(12345);
    let mut rng2 = Rng::new(12345);
    let rec1 = run_game(&cards, &mechanics, &mulligan, &weights, &mut rng1, 20);
    let rec2 = run_game(&cards, &mechanics, &mulligan, &weights, &mut rng2, 20);

    assert_eq!(rec1.total_turns, rec2.total_turns);
    assert_eq!(rec1.lands_in_play, rec2.lands_in_play);
    assert_eq!(rec1.total_cards_drawn, rec2.total_cards_drawn);
}

#[test]
fn test_mulligan_config_default_fallback() {
    let default = MulliganConfig::default_config();
    assert_eq!(f32::from_bits(default.min_value_for_round(0)), 3.5);
    assert_eq!(f32::from_bits(default.min_value_for_round(1)), 3.0);

    let mut partial = default;
    partial.threshold_count = 1;
    partial.thresholds[0] = (0, 10.0f32.to_bits());
    assert_eq!(f32::from_bits(partial.min_value_for_round(0)), 10.0);
    assert_eq!(f32::from_bits(partial.min_value_for_round(1)), 3.0);
}

fn five_drop_deck(mv_values: &[f32; 8], thresholds: &[(u8, f32)]) -> Vec<u8> {
    let mut buf = Vec::new();
    buf.extend_from_slice(&40u32.to_le_bytes());
    buf.extend_from_slice(&0u32.to_le_bytes());
    push_mulligan_header(&mut buf, 1.0, mv_values, thresholds);
    for _ in 0..40u32 {
        buf.push(0);
        buf.push(5);
        buf.push(0); buf.push(0); buf.push(0);
        buf.extend_from_slice(&[0u8; 6]);
        buf.push(0);
        buf.extend_from_slice(&0u32.to_le_bytes());
    }
    buf
}

#[test]
fn test_mulligan_decision_driven_by_configured_thresholds() {
    let buf = five_drop_deck(&[0.85, 0.8, 0.75, 0.6, 0.45, 0.3, 0.35, 0.3], &[(0, 3.5), (1, 3.0)]);
    let (cards, mechanics, default_mulligan) = decode(&buf).unwrap();
    let weights = pip_weights(&cards);
    let mut rng = Rng::new(7);
    let rec_default = run_game(&cards, &mechanics, &default_mulligan, &weights, &mut rng, 5);
    assert!(rec_default.took_mulligan(), "default config should mulligan an all-5-drop hand");

    let lenient_buf = five_drop_deck(&[0.85, 0.8, 0.75, 0.6, 0.45, 5.0, 0.35, 0.3], &[(0, 1.0), (1, 1.0)]);
    let (cards2, mechanics2, lenient_mulligan) = decode(&lenient_buf).unwrap();
    let weights2 = pip_weights(&cards2);
    let mut rng2 = Rng::new(7);
    let rec_lenient = run_game(&cards2, &mechanics2, &lenient_mulligan, &weights2, &mut rng2, 5);
    assert!(!rec_lenient.took_mulligan(), "lenient config should keep the same hand");
}

#[test]
fn test_score_x_cost_shifts_effective_mana_value() {
    let config = MulliganConfig::default_config();

    let plain = make_sim_card(0, 0, 0, 0, 0, 0, 0, 0);
    let x_cost = make_sim_card(0x20, 0, 0, 0, 0, 0, 0, 0);

    assert_eq!(config.curve_value_bits(&plain), config.mv_value_bits[0]);
    assert_eq!(config.curve_value_bits(&x_cost), config.mv_value_bits[2]);
}

#[test]
fn test_default_config_caps_mv4_plus_at_point_two() {
    let config = MulliganConfig::default_config();
    assert_eq!(f32::from_bits(config.mv_value_bits[4]), 0.2);
    assert_eq!(f32::from_bits(config.mv_value_bits[5]), 0.2);
    assert_eq!(f32::from_bits(config.mv_value_bits[6]), 0.2);
    assert_eq!(f32::from_bits(config.mv_value_bits[7]), 0.2);
}
