# martin

The score library of a demo: the tracker-DSL music score (tempo, sections and their phases, drum
grids, melodic phrases, chords, dynamics, mix knobs, FX choices) — reading it, writing it back,
laying it out on a grid of 16th-note slots, and asking it what plays when — plus the WAV encoding
of the rendered track, image sampling for splat logos, and the live-audio decisions. Everything in
`src/` is verified with Verus.

Layout:

- `src/text.rs`, `src/numbers.rs` — whitespace, words, lines, comments; integer and decimal
  literal grammars, decimal printing.
- `src/pattern.rs`, `src/notes.rs` — drum grids, note names (as MIDI numbers), chords, phrases.
- `src/section.rs`, `src/score.rs` — sections, knobs, the laid-out score and its queries.
- `src/parse.rs`, `src/dsl.rs` — reading and writing the DSL; `src/reload.rs` proves that what
  is written reads back as the same music, and `src/readback.rs` that every score the reader
  accepts can be written so (but for a few kinds of token it names); `src/validate.rs` lints a
  score.
- `src/anchor.rs` — `@@anchor` tokens.
- `src/wav.rs`, `src/splat_image.rs`, `src/music.rs` — WAV bytes, image sampling (any format
  the `image` crate guesses and reads), the live-audio director.
- `app/` — the unverified program around it: seconds and frequencies (`f32`), the FunDSP synth,
  loading from the environment, threads, the loading-screen arithmetic.
