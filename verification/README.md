# lettuce_core

The verified core of a chat and speech assistant's back end, written in
Verus. The functions under `src/` carry contracts that Verus proves, except
the few small wrappers around std's `char` classifications and the `regex`
crate, whose contracts are trusted and say what those calls return.

## Library (`src/`)

- `text` — strings as character sequences: conversion, ASCII case folding,
  trimming, and the few Unicode classifications of `char` the library uses.
- `thinking` — separating a model's reasoning from its visible answer, in one
  pass or while the reply streams in; `thinking_laws` proves that feeding a
  reply in any number of chunks agrees with splitting the whole reply, unless
  a chunk completes a `<|channel>thought` tag whose `<|channel>` the parser
  already took (`law_stream_any_chunks_matches_split`), and so always when no
  `<|channel>` tag occurs (`law_stream_without_channel_tags_matches_split`).
- `offload` — how much of a llama.cpp model fits on the GPU: per-layer costs,
  context sizing, candidate layer counts and multi-GPU placement.
- `asr` — speech-recognition vocabulary and corrections: normalisation,
  learning corrections from an edited transcript (a longest common
  subsequence of the two word lists), the recogniser's prompt, and applying
  stored corrections with the `regex` crate.
- `companion` — whose memory a session uses, and how a character's soul
  growth and per-persona relationship state carry across sessions.
- `kokoro` — the files a Kokoro model or voice install fetches, the voices a
  repository listing offers, and the bookkeeping of a running download.

## Application (`app/`)

Plain Rust around the library: SQLite storage with `rusqlite`, HTTP downloads
with `reqwest` and `tokio`, model inspection with `llama-cpp-2`, JSON with
`serde_json`, the serialisable forms of the library's types, and the
floating-point parts of the GPU plans.

## Tests (`tests/`)

Scenario tests for each module, run against the compiled library.
