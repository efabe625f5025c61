//! The binary wire format of a deck: a header with the counts and the
//! mulligan configuration, then fixed-size card and mechanic records.
//!
//! Wire layout:
//!   [4 bytes] card_count  (u32 LE)
//!   [4 bytes] mechanic_count (u32 LE)
//!   [4 bytes] mulligan land_value (f32 LE)
//!   [8 x 4 bytes] mulligan curve values for mana value 0-6 and 7+ (f32 LE)
//!   [1 byte]  mulligan threshold_count (u8)
//!   [3 bytes] reserved padding
//!   [threshold_count x 5 bytes] threshold records: (round: u8, min_value: f32 LE)
//!   [card_count x 16 bytes] card records
//!   [mechanic_count x 12 bytes] mechanic records

use vstd::prelude::*;
use crate::types::{MulliganConfig, SimCard, SimMechanic};

verus! {

/// Length of the fixed part of the header.
pub const HEADER_LEN: usize = 48;

/// Length of one threshold record.
pub const THRESHOLD_RECORD_LEN: usize = 5;

/// Why a buffer could not be decoded.
#[derive(Debug, Clone, Copy, PartialEq, Eq)]
pub enum DecodeError {
    /// Shorter than the fixed header.
    MissingHeader,
    /// The threshold records announced by the header do not fit.
    TruncatedThresholds,
    /// The card or mechanic records announced by the header do not fit.
    TruncatedBody,
}

impl DecodeError {
    /// The text that `decode` reports for this error.
    pub open spec fn text(self) -> Seq<char> {
        match self {
            DecodeError::MissingHeader => "Input too short \u{2014} missing header"@,
            DecodeError::TruncatedThresholds => "Input too short \u{2014} truncated mulligan thresholds"@,
            DecodeError::TruncatedBody => "Input too short \u{2014} truncated card or mechanic data"@,
        }
    }

    /// The human-readable message for this error.
    pub fn message(&self) -> (m: &'static str)
        ensures
            m@ == self.text(),
    {
        match self {
            DecodeError::MissingHeader => "Input too short \u{2014} missing header",
            DecodeError::TruncatedThresholds => "Input too short \u{2014} truncated mulligan thresholds",
            DecodeError::TruncatedBody => "Input too short \u{2014} truncated card or mechanic data",
        }
    }
}

/// The little-endian `u32` stored at `s[o..o + 4]`.
pub open spec fn le_u32(s: Seq<u8>, o: int) -> u32 {
    (s[o] as int + 256 * s[o + 1] + 65536 * s[o + 2] + 16777216 * s[o + 3]) as u32
}

/// The card record stored at `s[o..o + 16]`.
pub open spec fn parse_card(s: Seq<u8>, o: int) -> SimCard {
    SimCard {
        flags: s[o],
        cmc: s[o + 1],
        power: s[o + 2],
        toughness: s[o + 3],
        color_mask: s[o + 4],
        mana_w: s[o + 5],
        mana_u: s[o + 6],
        mana_b: s[o + 7],
        mana_r: s[o + 8],
        mana_g: s[o + 9],
        mana_generic: s[o + 10],
        formation_role: s[o + 11],
        mechanic_mask: le_u32(s, o + 12),
    }
}

/// The mechanic record stored at `s[o..o + 12]` (byte 3 is reserved).
pub open spec fn parse_mechanic(s: Seq<u8>, o: int) -> SimMechanic {
    SimMechanic {
        activation: s[o],
        advantage: s[o + 1],
        dimension: s[o + 2],
        card_mask: le_u32(s, o + 4),
        prereq_mask: le_u32(s, o + 8),
    }
}

/// Threshold record `i`, or the empty entry where the header announces fewer.
pub open spec fn parse_threshold(s: Seq<u8>, i: int) -> (u8, u32) {
    if i < s[44] {
        (s[48 + 5 * i], le_u32(s, 49 + 5 * i))
    } else {
        (0u8, 0u32)
    }
}

/// The mulligan configuration held by the header; records beyond the fourth
/// are skipped.
pub open spec fn parse_config(s: Seq<u8>) -> MulliganConfig {
    MulliganConfig {
        land_value_bits: le_u32(s, 8),
        mv_value_bits: [
            le_u32(s, 12),
            le_u32(s, 16),
            le_u32(s, 20),
            le_u32(s, 24),
            le_u32(s, 28),
            le_u32(s, 32),
            le_u32(s, 36),
            le_u32(s, 40),
        ],
        thresholds: [
            parse_threshold(s, 0),
            parse_threshold(s, 1),
            parse_threshold(s, 2),
            parse_threshold(s, 3),
        ],
        threshold_count: if s[44] < 4 { s[44] } else { 4 },
    }
}

/// Offset of the first card record.
pub open spec fn cards_offset(s: Seq<u8>) -> int {
    48 + 5 * s[44]
}

/// Bytes the buffer must hold for all announced records.
pub open spec fn total_needed(s: Seq<u8>) -> int {
    cards_offset(s) + 16 * le_u32(s, 0) + 12 * le_u32(s, 4)
}

/// What decoding `s` yields.
pub open spec fn decode_spec(s: Seq<u8>) -> Result<
    (Seq<SimCard>, Seq<SimMechanic>, MulliganConfig),
    DecodeError,
> {
    if s.len() < 48 {
        Err(DecodeError::MissingHeader)
    } else if s.len() < cards_offset(s) {
        Err(DecodeError::TruncatedThresholds)
    } else if s.len() < total_needed(s) {
        Err(DecodeError::TruncatedBody)
    } else {
        let cc = le_u32(s, 0) as int;
        let mc = le_u32(s, 4) as int;
        Ok(
            (
                Seq::new(cc as nat, |i: int| parse_card(s, cards_offset(s) + 16 * i)),
                Seq::new(mc as nat, |i: int| parse_mechanic(s, cards_offset(s) + 16 * cc + 12 * i)),
                parse_config(s),
            ),
        )
    }
}

fn read_u32_le(data: &[u8], o: usize) -> (v: u32)
    requires
        o + 4 <= data@.len(),
    ensures
        v == le_u32(data@, o as int),
{
    data[o] as u32 + (data[o + 1] as u32) * 256 + (data[o + 2] as u32) * 65536 + (data[o + 3] as u32)
        * 16777216
}

/// Decodes a deck buffer into its cards, its mechanics and its mulligan
/// configuration, or the message of the error that stops it. Bytes after the
/// last announced record are ignored.
pub fn decode(data: &[u8]) -> (res: Result<(Vec<SimCard>, Vec<SimMechanic>, MulliganConfig), &'static str>)
    ensures
        match res {
            Ok((cards, mechanics, config)) => decode_spec(data@) == Ok::<
                (Seq<SimCard>, Seq<SimMechanic>, MulliganConfig),
                DecodeError,
            >((cards@, mechanics@, config)),
            Err(msg) => decode_spec(data@) matches Err(e) && msg@ == e.text(),
        },
{
    if data.len() < HEADER_LEN {
        return Err(DecodeError::MissingHeader.message());
    }
    let card_count = read_u32_le(data, 0);
    let mechanic_count = read_u32_le(data, 4);
    let land_value_bits = read_u32_le(data, 8);
    let mut mv_value_bits = [0u32; 8];
    let mut k: usize = 0;
    while k < 8
        invariant
            k <= 8,
            data@.len() >= 48,
            forall|j: int| 0 <= j < k ==> mv_value_bits@[j] == le_u32(data@, 12 + 4 * j),
        decreases 8 - k,
    {
        mv_value_bits[k] = read_u32_le(data, 12 + k * 4);
        k += 1;
    }
    let threshold_count_wire = data[44];
    let thresholds_base: usize = HEADER_LEN;
    let thresholds_bytes_needed: usize = threshold_count_wire as usize * THRESHOLD_RECORD_LEN;
    if data.len() < thresholds_base + thresholds_bytes_needed {
        return Err(DecodeError::TruncatedThresholds.message());
    }
    let mut thresholds = [(0u8, 0u32); 4];
    let kept: usize = if threshold_count_wire < 4 { threshold_count_wire as usize } else { 4 };
    let mut i: usize = 0;
    while i < kept
        invariant
            i <= kept <= 4,
            thresholds_base == 48,
            kept <= threshold_count_wire,
            threshold_count_wire == data@[44],
            kept == (if data@[44] < 4 { data@[44] as int } else { 4 }),
            data@.len() >= 48 + 5 * threshold_count_wire,
            forall|j: int| 0 <= j < i ==> thresholds@[j] == parse_threshold(data@, j),
            forall|j: int| i <= j < 4 ==> thresholds@[j] == (0u8, 0u32),
        decreases kept - i,
    {
        let o = thresholds_base + i * 5;
        let round = data[o];
        let min_value_bits = read_u32_le(data, o + 1);
        thresholds[i] = (round, min_value_bits);
        i += 1;
    }
    let mulligan = MulliganConfig {
        land_value_bits,
        mv_value_bits,
        thresholds,
        threshold_count: kept as u8,
    };
    assert(mulligan.mv_value_bits =~= parse_config(data@).mv_value_bits);
    assert(forall|j: int| kept <= j < 4 ==> parse_threshold(data@, j) == (0u8, 0u32));
    assert(mulligan.thresholds =~= parse_config(data@).thresholds);
    assert(mulligan == parse_config(data@));

    let card_base: usize = thresholds_base + thresholds_bytes_needed;
    let needed: u64 = card_base as u64 + card_count as u64 * 16 + mechanic_count as u64 * 12;
    if (data.len() as u64) < needed {
        return Err(DecodeError::TruncatedBody.message());
    }
    let len = data.len();
    let mut cards: Vec<SimCard> = Vec::new();
    let mut c: usize = 0;
    while c < card_count as usize
        invariant
            card_base == cards_offset(data@),
            len == data@.len(),
            card_base + 16 * card_count + 12 * mechanic_count <= data@.len(),
            card_count == le_u32(data@, 0),
            c <= card_count,
            cards@ =~= Seq::new(c as nat, |j: int| parse_card(data@, card_base + 16 * j)),
        decreases card_count - c,
    {
        let o = card_base + c * 16;
        let mechanic_mask = read_u32_le(data, o + 12);
        cards.push(SimCard {
            flags: data[o],
            cmc: data[o + 1],
            power: data[o + 2],
            toughness: data[o + 3],
            color_mask: data[o + 4],
            mana_w: data[o + 5],
            mana_u: data[o + 6],
            mana_b: data[o + 7],
            mana_r: data[o + 8],
            mana_g: data[o + 9],
            mana_generic: data[o + 10],
            formation_role: data[o + 11],
            mechanic_mask,
        });
        c += 1;
    }
    let mech_base: usize = card_base + card_count as usize * 16;
    let mut mechanics: Vec<SimMechanic> = Vec::new();
    let mut m: usize = 0;
    while m < mechanic_count as usize
        invariant
            mech_base == cards_offset(data@) + 16 * card_count,
            len == data@.len(),
            mech_base + 12 * mechanic_count <= data@.len(),
            mechanic_count == le_u32(data@, 4),
            m <= mechanic_count,
            mechanics@ =~= Seq::new(m as nat, |j: int| parse_mechanic(data@, mech_base + 12 * j)),
        decreases mechanic_count - m,
    {
        let o = mech_base + m * 12;
        let card_mask = read_u32_le(data, o + 4);
        let prereq_mask = read_u32_le(data, o + 8);
        mechanics.push(SimMechanic {
            activation: data[o],
            advantage: data[o + 1],
            dimension: data[o + 2],
            card_mask,
            prereq_mask,
        });
        m += 1;
    }
    Ok((cards, mechanics, mulligan))
}

/// Bytes after the last announced record never change what a buffer decodes
/// to: a buffer that decodes keeps decoding to the same deck when anything is
/// appended to it.
pub proof fn lemma_decode_ignores_trailing_bytes(s: Seq<u8>, extra: Seq<u8>)
    requires
        decode_spec(s) is Ok,
    ensures
        decode_spec(s + extra) == decode_spec(s),
{
    let t = s + extra;
    assert(forall|i: int| 0 <= i < s.len() ==> t[i] == s[i]);
    assert(forall|o: int| 0 <= o && o + 4 <= s.len() ==> le_u32(t, o) == le_u32(s, o));
    assert(cards_offset(t) == cards_offset(s));
    assert(total_needed(t) == total_needed(s));
    let cc = le_u32(s, 0) as int;
    let mc = le_u32(s, 4) as int;
    let base = cards_offset(s);
    assert(Seq::new(cc as nat, |i: int| parse_card(t, base + 16 * i)) =~= Seq::new(
        cc as nat,
        |i: int| parse_card(s, base + 16 * i),
    ));
    assert(Seq::new(mc as nat, |i: int| parse_mechanic(t, base + 16 * cc + 12 * i)) =~= Seq::new(
        mc as nat,
        |i: int| parse_mechanic(s, base + 16 * cc + 12 * i),
    ));
    assert(forall|i: int| 0 <= i < 4 ==> parse_threshold(t, i) == parse_threshold(s, i));
    assert(parse_config(t).thresholds =~= parse_config(s).thresholds);
    assert(parse_config(t).mv_value_bits =~= parse_config(s).mv_value_bits);
    assert(parse_config(t) == parse_config(s));
}

/// The reserved bytes of the header (45 to 47) never change what a buffer
/// decodes to.
pub proof fn lemma_decode_ignores_reserved_header(s: Seq<u8>, i: int, b: u8)
    requires
        45 <= i < 48,
        i < s.len(),
    ensures
        decode_spec(s.update(i, b)) == decode_spec(s),
{
    let t = s.update(i, b);
    assert(forall|j: int| 0 <= j < s.len() && j != i ==> t[j] == s[j]);
    assert(forall|o: int| 0 <= o && o + 4 <= 45 ==> le_u32(t, o) == le_u32(s, o));
    assert(forall|o: int| 48 <= o && o + 4 <= s.len() ==> le_u32(t, o) == le_u32(s, o));
    if s.len() >= 48 {
        assert(t[44] == s[44]);
        assert(cards_offset(t) == cards_offset(s));
        assert(total_needed(t) == total_needed(s));
        if s.len() >= total_needed(s) {
            let cc = le_u32(s, 0) as int;
            let mc = le_u32(s, 4) as int;
            let base = cards_offset(s);
            assert(Seq::new(cc as nat, |k: int| parse_card(t, base + 16 * k)) =~= Seq::new(
                cc as nat,
                |k: int| parse_card(s, base + 16 * k),
            ));
            assert(Seq::new(mc as nat, |k: int| parse_mechanic(t, base + 16 * cc + 12 * k))
                =~= Seq::new(mc as nat, |k: int| parse_mechanic(s, base + 16 * cc + 12 * k)));
            assert(forall|k: int| 0 <= k < 4 ==> parse_threshold(t, k) == parse_threshold(s, k));
            assert(parse_config(t).thresholds =~= parse_config(s).thresholds);
            assert(parse_config(t).mv_value_bits =~= parse_config(s).mv_value_bits);
            assert(parse_config(t) == parse_config(s));
        }
    }
}

/// The reserved byte (byte 3) of every mechanic record never changes what a
/// buffer decodes to.
pub proof fn lemma_decode_ignores_reserved_mechanic_byte(s: Seq<u8>, m: int, b: u8)
    requires
        decode_spec(s) is Ok,
        0 <= m < le_u32(s, 4),
    ensures
        decode_spec(s.update(cards_offset(s) + 16 * le_u32(s, 0) + 12 * m + 3, b)) == decode_spec(s),
{
    let cc = le_u32(s, 0) as int;
    let mc = le_u32(s, 4) as int;
    let base = cards_offset(s);
    let i = base + 16 * cc + 12 * m + 3;
    let t = s.update(i, b);
    assert(forall|j: int| 0 <= j < s.len() && j != i ==> t[j] == s[j]);
    assert(forall|o: int| 0 <= o && o + 4 <= i ==> le_u32(t, o) == le_u32(s, o));
    assert(forall|o: int| i < o && o + 4 <= s.len() ==> le_u32(t, o) == le_u32(s, o));
    assert(t[44] == s[44]);
    assert(cards_offset(t) == base);
    assert(total_needed(t) == total_needed(s));
    assert(Seq::new(cc as nat, |k: int| parse_card(t, base + 16 * k)) =~= Seq::new(
        cc as nat,
        |k: int| parse_card(s, base + 16 * k),
    ));
    let tm = Seq::new(mc as nat, |k: int| parse_mechanic(t, base + 16 * cc + 12 * k));
    let sm = Seq::new(mc as nat, |k: int| parse_mechanic(s, base + 16 * cc + 12 * k));
    assert forall|k: int| 0 <= k < mc implies #[trigger] tm[k] == sm[k] by {
        let o = base + 16 * cc + 12 * k;
        assert(le_u32(t, o + 4) == le_u32(s, o + 4));
        assert(le_u32(t, o + 8) == le_u32(s, o + 8));
    }
    assert(tm =~= sm);
    assert(forall|k: int| 0 <= k < 4 ==> parse_threshold(t, k) == parse_threshold(s, k));
    assert(parse_config(t).thresholds =~= parse_config(s).thresholds);
    assert(parse_config(t).mv_value_bits =~= parse_config(s).mv_value_bits);
    assert(parse_config(t) == parse_config(s));
}

/// A decoded deck holds the records of the buffer in wire order: as many
/// cards as the little-endian count in bytes 0-3, card `i` read field by
/// field from the 16 bytes at `48 + 5 * s[44] + 16 * i`, then as many
/// mechanics as the count in bytes 4-7, mechanic `i` read from the 12 bytes
/// that follow the cards at `12 * i` (byte 3 skipped).
pub proof fn lemma_decode_reads_records_in_order(s: Seq<u8>)
    requires
        decode_spec(s) is Ok,
    ensures
        ({
            let (cards, mechanics, config) = decode_spec(s).unwrap();
            let base = 48 + 5 * s[44];
            &&& cards.len() == s[0] + 256 * s[1] + 65536 * s[2] + 16777216 * s[3]
            &&& mechanics.len() == s[4] + 256 * s[5] + 65536 * s[6] + 16777216 * s[7]
            &&& forall|i: int|
                #![trigger cards[i]]
                0 <= i < cards.len() ==> {
                    let o = base + 16 * i;
                    &&& cards[i].flags == s[o]
                    &&& cards[i].cmc == s[o + 1]
                    &&& cards[i].power == s[o + 2]
                    &&& cards[i].toughness == s[o + 3]
                    &&& cards[i].color_mask == s[o + 4]
                    &&& cards[i].mana_w == s[o + 5]
                    &&& cards[i].mana_u == s[o + 6]
                    &&& cards[i].mana_b == s[o + 7]
                    &&& cards[i].mana_r == s[o + 8]
                    &&& cards[i].mana_g == s[o + 9]
                    &&& cards[i].mana_generic == s[o + 10]
                    &&& cards[i].formation_role == s[o + 11]
                    &&& cards[i].mechanic_mask == s[o + 12] + 256 * s[o + 13] + 65536 * s[o + 14]
                        + 16777216 * s[o + 15]
                }
            &&& forall|i: int|
                #![trigger mechanics[i]]
                0 <= i < mechanics.len() ==> {
                    let o = base + 16 * cards.len() + 12 * i;
                    &&& mechanics[i].activation == s[o]
                    &&& mechanics[i].advantage == s[o + 1]
                    &&& mechanics[i].dimension == s[o + 2]
                    &&& mechanics[i].card_mask == s[o + 4] + 256 * s[o + 5] + 65536 * s[o + 6]
                        + 16777216 * s[o + 7]
                    &&& mechanics[i].prereq_mask == s[o + 8] + 256 * s[o + 9] + 65536 * s[o + 10]
                        + 16777216 * s[o + 11]
                }
        }),
{
}

} // verus!
