# musicos

A programmable backend for music production, verified with Verus: the
symbolic music model (ticks, pitches, patterns, harmony, rhythm), the project
aggregate with its commands, events, undo and replay, the tempo timeline,
song structure, the generators (chords, melody, bass, drums), Standard MIDI
File import and export, live-MIDI scheduling and the FL Studio bridge
protocol, the audio-graph compiler, the frame plan of a render, layered
configuration, and the decisions of the AI agent loop.

## Layout

- `src/` — the verified library. Each module states its behaviour in
  `requires`/`ensures` over spec functions and views; public proof functions
  named `law_*` state properties that span calls (undo restores the prior
  state, replay reproduces it, transposition round-trips, a render graph is
  acyclic, …).
- `tests/` — executable tests of the library.
- `app/` — the `music` command-line client and everything the library does
  not hold: file and environment I/O, TOML and JSON handling, floating-point
  DSP and synthesis, the in-process event bus, and the agent loop's JSON
  plumbing around the verified decisions.

MIDI files are decoded and encoded with `midly`, called from the library
through trusted wrappers whose contracts are stated in `src/midi.rs`.
