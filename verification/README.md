# noisescope

A structural analyzer and fuzzer for handshake transcripts, written in Verus.
A protocol specification is a finite state machine over roles and message
types; a transcript is an ordered list of observed events. The library replays
transcripts against specifications, mutates them deterministically, minimizes
the mutation plans that break conformance, and renders JSON and text reports.
It checks the shape of a handshake only and makes no cryptographic claim.

Layout:

- `src/` — the verified library. Every function carries a contract, and the
  properties that span functions are stated and proved as public proof
  functions (`lemma_*`).
  - `text.rs` — character helpers, decimal/hex rendering, integer-to-double text.
  - `json.rs` — JSON values, grammar, parser and serializers; `roundtrip.rs` —
    proofs that serialized values parse back.
  - `model.rs` — specifications, events, transcripts, lint.
  - `parser.rs` — specifications and transcript fields from JSON.
  - `engine.rs` — replay and invariant checking.
  - `mutate.rs` — SplitMix64, mutations and plan generation.
  - `minimize.rs` — 1-minimal plan minimization.
  - `divergence.rs` — fuzzing runs; `report.rs` — JSON and text reports.
- `tests/` — executable tests.
- `app/` — the command-line tool: argument handling, file I/O, and the
  conversions of JSON numbers that need double arithmetic.
