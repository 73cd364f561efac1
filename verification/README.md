# mnemosyne_core

Verified core of the memory palace.

- `src/script.rs`: classification of characters by script and the
  segmentation of text into comparison tokens (`segment`), specified over
  the maximal same-script runs of word characters (`spec_pieces`) and what
  each run emits (`emit_tokens`, `emit_units`).
- `src/script_laws.rs`: properties of that segmentation, proved: pieces are
  maximal single-script runs, every token is a single-script span of the
  text and a bare character only in Han, a delimiting script or between
  delimiters, every run is itself a token, segmentation splits at
  boundaries, a single-script query matches inside any document holding
  it, delimiting scripts are untouched, units never exceed characters.
- `src/drawer.rs`: the drawer record, its construction from a slot (the id
  recipe and the temporal and entity readers are passed in), its
  content-date update and live reading of time mentions, and the canonical
  byte framing covered by the integrity tag.
- `src/drawer_laws.rs`: deterministic ids, idempotent content dates, and
  live readings that depend only on content and date.
- `src/text.rs`: character helpers over `str` and `String`.
- `app/`: serde copies of the drawer record, the JSON form of its
  metadata, and filing a drawer at the current time.
