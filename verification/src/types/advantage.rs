use vstd::prelude::*;

verus! {

/// Ordinal of the card-draw advantage output.
pub const CARD_DRAW: u8 = 1;

/// Ordinal of the mana-generation advantage output.
pub const MANA_GENERATION: u8 = 2;

/// Ordinal of the token-creation advantage output.
pub const TOKEN_CREATION: u8 = 3;

/// Ordinal of the direct-damage advantage output.
pub const DIRECT_DAMAGE: u8 = 4;

/// Ordinal of the combo-win advantage output.
pub const COMBO_WIN: u8 = 5;

} // verus!
