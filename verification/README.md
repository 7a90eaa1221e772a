# NAO-M-E

A deterministic kernel for symbolic episode memory, verified with Verus. Every
function of the library states in its contract what it returns or changes, and
the laws that hold across functions stand beside them as public proof functions.

## Layout

- `src/model.rs`, `src/parameters.rs`: identifiers, timestamps, feedback
  histories, activations and the constants of scoring.
- `src/attribute.rs`, `src/statement.rs`: the two kinds of episodes, each with
  its canonical form and its symbolic cues; `src/episode.rs` is what a memory
  asks of them.
- `src/memory.rs` and `src/memory/`: append-only storage, cue postings, directed
  feedback and source-conditioned recall.
- `src/sqlite/`: the database format: codecs, symbol normalization and catalog,
  vectors, snapshots, save plans, and recall over persisted vectors.
- `src/semantic/`: the fixed embedding profile, the texts that are embedded, and
  the checks around the model.
- `src/semantic_index/`: the rebuildable cue sidecar.
- `src/cli/`: arguments, input rows and reports of the command line.
- `app/`: the program: SQLite connections, files, the model runtime, the clock.
- `tests/`: examples of everything above.

## What is trusted

The library calls a few functions that it does not verify. Each is declared
beside its only users with the contract that proofs rest on:

- Unicode NFKC (`unicode-normalization`) and lowercase mappings
  (`unicode-case-mapping`), in `src/sqlite/normalize.rs`;
- SHA-256 (`sha2`), in `src/semantic/encoder.rs`;
- shell word splitting (`shlex`), in `src/cli/rows.rs`;
- operating-system entropy (`getrandom`), in `src/sqlite/entropy.rs`;
- `str::from_utf8`, `char::from_u32`, `String::push` and `u128::isqrt` of the
  standard library.

The results of the first three are named, not described: proofs use only that
they depend on their input alone.

The sidecar asks an embedder that its user supplies. What such an embedder may
answer is its own promise, `CueEmbedder::may_answer`; the library proves that the
rows of each request hold an answer to exactly the texts of that request.
