# agent-hud

A heads-up display for Codex sessions on Windows: it lists the recent root
sessions of the local state database, tells for each whether the human can
give it the next instruction (`WORKING`, `READY` or `UNKNOWN`), and
follows their rollout files live.

## Layout

- `src/` is the library, written in Verus. Every function there carries a
  contract that Verus proves: the readiness reducer, the interpretation of
  rollout records (parsed with `serde_json` behind trusted wrappers in
  `src/json.rs`), the incremental rollout reader and the live watcher's
  decisions, session ordering and attention, configuration, queues, review
  state, dependency graphs, GitHub links and the HUD's text layout rules.
  Laws that span several functions are public proof functions named
  `lemma_*`.
- `app/` is the program around it: reading the SQLite state database and the
  rollout files, the file-system watch, git and process queries, opening
  threads, and the Win32 window that draws the HUD.
- `tests/` exercises the library with the real outside crates linked.
