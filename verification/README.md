# medulla

`med` is a cognitive memory layer for local LLM agents: facts are appended to a local
log (`.medulla/musings.ndjson`), merged with a git-tracked snapshot (`brain.ndjson`),
ranked by ACT-R activation (recent and frequently accessed memories first) and wired into a graph of co-occurring tags
(Hebbian association).

This crate is written in Verus. Its library, under `src/`, holds the logic of every
subcommand with contracts that Verus proves:

- `memory` — the memory record, its model, and the last-write-wins reading of a log;
- `rank` — ordering rows by activation, compared exactly in integers (ties in stored
  order);
- `text` — trimming, splitting, substring search and string order on `char` sequences;
- `commands::learn` — validation, tag normalisation and identifiers of new memories;
- `commands::commit` — the deterministic, sorted, metadata-free snapshot;
- `commands::think` — merging the log with the snapshot, cache rows, Hebbian counts;
- `commands::query` — selection, ranking, reinforcement and the walk over the graph;
- `commands::run` — the literal search of the first query command;
- `commands::embed` — which memories still need an embedding, and their batches;
- `commands::init` — what `.gitignore` and `.medulla/AGENTS.md` are given;
- `bindings` — the trusted calls into `serde_json`, `rust-stemmers`, `sha2`, `regex`,
  and `str`, each with the contract it is believed to meet.

`app/` is the command-line program around the library: argument parsing, files and
locks, Parquet caches, floating-point scores and the embedding model. `tests/` runs the
library on concrete values.
