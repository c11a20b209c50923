# cos-engine

The memory engine of a cognitive OS: markdown vaults are ingested into a
SQLite "brain" (pages, chunks, embeddings) by cycles that check their own
work, and the brain is searched by fusing full-text and vector rankings.

## Layout

- `src/` — the engine's logic, verified with Verus:
  - `text.rs` — `trim`, `lines`, `split`, prefixes and UTF-8 length over characters;
  - `paths.rs` — Unix path joining, file names, stems and extensions;
  - `ingest.rs` — content hashes, chunking, titles, which directory entries a
    vault walk keeps, and the order of discovered files;
  - `config.rs` — configuration, brain paths, embedder specs, `init`;
  - `embed.rs` — embedder addressing, mock seeds, vector byte layout;
  - `cycle.rs` — the cycle's state machine, its checks and reports, and the
    laws it keeps over any run of events (what a green report means, what a
    second cycle over unchanged vaults reports);
  - `db.rs` — ledger rows, page keys, chunk rows and what storing a page does;
  - `search.rs` — rank maps, rank fusion candidates, snippets.
- `app/` — the command-line program around the library: the disk walk, the
  SQLite database, HTTP calls to the embedder, floating-point vectors and
  scores, JSON and TOML.
- `tests/` — tests of the library.
