# reticle_app

The application layer of the Reticle layout editor, as a Verus-verified
library: the data structures, parsers, encoders and state machines behind the
editor's panels, links and files, each with a contract proved by Verus.

## Layout

- `src/` — the verified library. Every function states its behaviour in a
  contract over mathematical models (sequences, sets, maps, multisets,
  integers). Public `lemma_*` proof functions state the
  library's laws (round trips, idempotence, invariants kept by every
  operation).
  - `text` — character-level helpers (trim, split, join, decimal text) and
    their laws.
  - `share` — room ids, viewer and archive links, permalink parameters, and
    their round trips.
  - `qr` — QR code encoding (Reed–Solomon, placement, masking, format bits).
  - `session`, `settings`, `onboarding`, `startscreen` — persisted
    preferences and their text forms.
  - `livesync` — the live-link state machine (reconnects, stale reports).
  - `notify` — toasts, their history, and the connectivity banner.
  - `selection`, `query`, `outline`, `snap`, `measure`, `productivity`,
    `nl_edit`, `ops`, `edit`, `geom` — editing logic on layout geometry.
  - `menu` — the menu tree built from the command registry.
  - `replay`, `store` — the replay theater's transport, verdicts and
    transcript framing.
  - `streamed` — archive header checks and the bounded tile working set.
  - `open`, `snapshot`, `plugin_panel`, `review_panel`, `overlay`, `cli` —
    document opening, snapshots, panels and launch flags.
- `tests/` — tests of the library's behaviour on concrete values.
- `app/` — the launcher and what needs floating point or I/O: pointer and
  screen geometry, pacing, file reading.
