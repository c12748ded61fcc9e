# wordle

A Wordle game whose rules are a verified library (Verus) and whose terminal,
file and JSON handling is a thin program around it.

- `src/engine.rs`: colouring a guess (green, then yellow), the keyboard, the
  hard-mode rule, and the proof that colouring finds each letter as often as
  it occurs in both guess and answer.
- `src/arg_parse.rs`: the command line, specified as a scan over the arguments.
- `src/game.rs`: the answer of each round, the seeded shuffle of answers, and
  a round played guess by guess (what each guess does to the round).
- `src/json.rs`, `src/state.rs`: the saved state, parsed from its text, and
  the record of each game.
- `src/stats.rs`, `src/utilities.rs`: statistics, the most guessed words,
  reading saved games back, and the word-list check.
- `src/words.rs`, `src/text.rs`: word lists, lines, numbers and text order.
- `app/`: `main`, reading and writing files, writing JSON, printing.
