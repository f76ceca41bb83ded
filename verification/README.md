# wordle

A Wordle game and solver whose rules are proved with Verus.

- `src/` is the verified library:
  - `feedback`: the colour pattern of a guess against an answer (`calc`), its
    base-3 code and its decoding;
  - `candidates`: which words agree with a coloured guess, and the proof that
    the answer always does;
  - `letters`, `text`: letters, case mapping, reading word lists and input lines;
  - `dict`: the answer and guess lists, loading replacement lists;
  - `stats`: guess counts and the ranking of the most guessed words;
  - `game`, `round`: the rules of a round (valid guesses, hard mode, keyboard);
  - `solver`: the solver's candidate lists and pattern histograms;
  - `record`: saved games, the daily answer order, option conflicts.
- `app/` holds the terminal programs (game, solver with `--solver`, pattern
  table with `--data-init`), JSON handling and the floating-point ranking of
  guesses. It expects a module `builtin_words` with the built-in word lists
  `FINAL` and `ACCEPTABLE`.
- `tests/` runs the library on concrete games.
