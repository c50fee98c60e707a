# clicky

A terminal typing tutor. The library (`src/`) is verified with Verus; the
program around it (`app/`) draws the screen, reads the keyboard and keeps the
save files.

- `prng`: the linear congruential generator and its mapping onto integer
  ranges: the double-precision formula, computed exactly in integers and
  kept within the range.
- `text_gen`: the cumulative-frequency word table, word lookup, and prompt
  generation, specified by a state machine of pieces (`typing_prompt`).
- `prompt_laws`: what every prompt satisfies (three non-empty lines, the last
  ending at the end of the text; ASCII text; the brackets and quotes that a
  prompt adds pair up, with the owed closing mark (and so do all the marks of
  its text when the words hold none); no repeated word; at least thirty generator
  steps; the same prompt from the same generator state).
- `timing`: the stopwatch readout and its arithmetic.
- `typing`: how keystrokes move the counts of correct and wrong characters,
  the settings shortcuts, and the integer parts of the speed.
- `rendering`: how the prompt splits into lines of correct, wrong and untyped
  characters.
- `persist`: prompt settings, save file names (one for each setting), and how
  a session is merged into the saved records.
- `decimal`: decimal text of integers.

The program reads its word table at start-up from `clicky_words.json`, a JSON
list of `[word, upper, lower]` entries whose ranges `lower < t <= upper`
descend without gaps down to zero.
