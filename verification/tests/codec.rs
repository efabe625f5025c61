use mamo_sim::codec::{decode, DecodeError};

fn header(card_count: u32, mechanic_count: u32, thresholds: &[(u8, f32)]) -> Vec<u8> {
    let mut buf = Vec::new();
    buf.extend_from_slice(&card_count.to_le_bytes());
    buf.extend_from_slice(&mechanic_count.to_le_bytes());
    buf.extend_from_slice(&1.5f32.to_le_bytes());
    for i in 0..8 {
        buf.extend_from_slice(&(i as f32).to_le_bytes());
    }
    buf.push(thresholds.len() as u8);
    buf.extend_from_slice(&[0u8; 3]);
    for (round, v) in thresholds {
        buf.push(*round);
        buf.extend_from_slice(&v.to_le_bytes());
    }
    buf
}

#[test]
fn decode_rejects_short_header() {
    let buf = vec![0u8; 47];
    assert_eq!(decode(&buf).unwrap_err(), "Input too short \u{2014} missing header");
    assert_eq!(decode(&[]).unwrap_err(), DecodeError::MissingHeader.message());
}

#[test]
fn decode_rejects_truncated_thresholds() {
    let mut buf = header(0, 0, &[(0, 1.0), (1, 2.0)]);
    buf.pop();
    assert_eq!(decode(&buf).unwrap_err(), "Input too short \u{2014} truncated mulligan thresholds");
}

#[test]
fn decode_rejects_truncated_body() {
    let mut buf = header(1, 1, &[]);
    buf.extend_from_slice(&[0u8; 16]);
    buf.extend_from_slice(&[0u8; 11]);
    assert_eq!(decode(&buf).unwrap_err(), "Input too short \u{2014} truncated card or mechanic data");
}

#[test]
fn decode_error_messages() {
    assert_eq!(DecodeError::MissingHeader.message(), "Input too short \u{2014} missing header");
    assert_eq!(
        DecodeError::TruncatedThresholds.message(),
        "Input too short \u{2014} truncated mulligan thresholds"
    );
    assert_eq!(
        DecodeError::TruncatedBody.message(),
        "Input too short \u{2014} truncated card or mechanic data"
    );
}

#[test]
fn decode_reads_every_field() {
    let mut buf = header(1, 1, &[(2, 4.5)]);
    buf.extend_from_slice(&[0x13, 4, 3, 2, 0x21, 1, 2, 3, 4, 5, 6, 7]);
    buf.extend_from_slice(&0x0102_0304u32.to_le_bytes());
    buf.extend_from_slice(&[9, 5, 8, 0xff]);
    buf.extend_from_slice(&0xdead_beefu32.to_le_bytes());
    buf.extend_from_slice(&7u32.to_le_bytes());
    let (cards, mechanics, config) = decode(&buf).unwrap();
    assert_eq!(cards.len(), 1);
    let c = cards[0];
    assert_eq!(
        (c.flags, c.cmc, c.power, c.toughness, c.color_mask),
        (0x13, 4, 3, 2, 0x21)
    );
    assert_eq!(
        (c.mana_w, c.mana_u, c.mana_b, c.mana_r, c.mana_g, c.mana_generic, c.formation_role),
        (1, 2, 3, 4, 5, 6, 7)
    );
    assert_eq!(c.mechanic_mask, 0x0102_0304);
    assert_eq!(mechanics.len(), 1);
    let m = mechanics[0];
    assert_eq!((m.activation, m.advantage, m.dimension), (9, 5, 8));
    assert_eq!((m.card_mask, m.prereq_mask), (0xdead_beef, 7));
    assert_eq!(f32::from_bits(config.land_value_bits), 1.5);
    assert_eq!(f32::from_bits(config.mv_value_bits[7]), 7.0);
    assert_eq!(config.threshold_count, 1);
    assert_eq!(config.thresholds[0].0, 2);
    assert_eq!(f32::from_bits(config.thresholds[0].1), 4.5);
    assert_eq!(config.thresholds[1], (0, 0));
}

#[test]
fn decode_keeps_at_most_four_thresholds() {
    let buf = header(0, 0, &[(0, 1.0), (1, 2.0), (2, 3.0), (3, 4.0), (4, 5.0), (5, 6.0)]);
    let (_, _, config) = decode(&buf).unwrap();
    assert_eq!(config.threshold_count, 4);
    assert_eq!(config.thresholds[3].0, 3);
    assert_eq!(f32::from_bits(config.thresholds[3].1), 4.0);
}

#[test]
fn decode_ignores_trailing_bytes() {
    let mut buf = header(2, 0, &[]);
    buf.extend_from_slice(&[1u8; 32]);
    let (cards, _, _) = decode(&buf).unwrap();
    buf.extend_from_slice(&[0xaa; 9]);
    let (cards2, mechanics2, _) = decode(&buf).unwrap();
    assert_eq!(cards2.len(), cards.len());
    assert_eq!(cards2[1].flags, cards[1].flags);
    assert_eq!(mechanics2.len(), 0);
}

#[test]
fn decode_ignores_reserved_bytes() {
    let mut buf = header(1, 1, &[(1, 2.5)]);
    buf.extend_from_slice(&[0x13, 4, 3, 2, 0x21, 1, 2, 3, 4, 5, 6, 7]);
    buf.extend_from_slice(&0x0102_0304u32.to_le_bytes());
    buf.extend_from_slice(&[9, 5, 8, 0]);
    buf.extend_from_slice(&0xdead_beefu32.to_le_bytes());
    buf.extend_from_slice(&7u32.to_le_bytes());
    let (cards, mechanics, config) = decode(&buf).unwrap();
    let mut noisy = buf.clone();
    noisy[45] = 0xaa;
    noisy[46] = 0xbb;
    noisy[47] = 0xcc;
    noisy[48 + 5 + 16 + 3] = 0xdd;
    let (cards2, mechanics2, config2) = decode(&noisy).unwrap();
    assert_eq!(cards2.len(), 1);
    assert_eq!((cards2[0].flags, cards2[0].cmc, cards2[0].mechanic_mask), (cards[0].flags, cards[0].cmc, cards[0].mechanic_mask));
    assert_eq!(mechanics2.len(), 1);
    let (m, m2) = (mechanics[0], mechanics2[0]);
    assert_eq!((m2.activation, m2.advantage, m2.dimension), (m.activation, m.advantage, m.dimension));
    assert_eq!((m2.card_mask, m2.prereq_mask), (m.card_mask, m.prereq_mask));
    assert_eq!(config2.threshold_count, config.threshold_count);
    assert_eq!(config2.thresholds, config.thresholds);
    assert_eq!(config2.land_value_bits, config.land_value_bits);
    assert_eq!(config2.mv_value_bits, config.mv_value_bits);
}
