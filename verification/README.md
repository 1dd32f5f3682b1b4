# salsa

The engine of Salsa, a local-first text expander, as a Verus-verified Rust
library, with the command-line agent and app around it.

## Layout

- `src/` — the verified library.
  - `engine.rs`: the trigger matcher (reverse tries: case-preserving
    snippets under their triggers, the others under the typed text they
    need or its lowercase), its per-snippet
    checks (scope, delimiter, case mode) and the ranking of snippets
    (priority, then newest update, then smallest id). The contract of
    `Matcher::match_buffer` states which snippet expands without reference to
    either index.
  - `trie.rs`: the reverse trie and its well-formedness invariant.
  - `lint.rs`: duplicate-trigger and priority-shadowing detection.
  - `store.rs`: the SQLite row layout (labels, JSON tag lists, RFC 3339
    timestamps, UUID text) in both directions, and the choice of pending
    migrations.
  - `ipc.rs`: the agent's answer to a request, message framing and line
    trimming.
  - `model.rs`, `clock.rs`, `ids.rs`, `text.rs`, `platform.rs`: the data
    model, UTC timestamps, identifiers, text helpers and platform support.
- `app/` — the program: socket server and client, SQLite statements,
  migration SQL, command-line handling.
- `tests/` — tests of the library.

Calls into `uuid`, `chrono`, `serde_json` and a few `std` text functions sit
behind small trusted wrappers whose contracts are documented where they are
declared.
