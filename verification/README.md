# mamo_sim

Solitaire simulation of a Commander-style deck, verified with Verus.

- `src/codec.rs` decodes a deck from its binary wire format (header with the
  mulligan configuration, then card and mechanic records).
- `src/rng.rs` is the Mulberry32 generator.
- `src/mana_pool.rs` holds a mana pool and how a cost is paid from it.
- `src/game_model.rs` states the rules of a game as specification: the deal,
  the mulligan and every step of a turn, plus the consistency laws of a game
  record.
- `src/game_engine.rs` shuffles, deals, mulligans and plays a game, proved to
  follow `game_model`.
- `src/land_count.rs` proves that, when no card is both a commander and a
  land, the lands in play at each snapshot turn are the running total of the
  land drops.
- `src/tally.rs` holds the integer tallies over many records (mana values
  cast, first turn with a spell) that the batch statistics use.
- `src/types.rs` holds cards, mechanics, the mulligan configuration (values as
  IEEE-754 bit patterns) and the per-game record.
- `app/lib.rs` is the WebAssembly-facing part: the floating-point scoring of
  opening hands (keep or mulligan), metric aggregation and the JSON batch
  driver.
