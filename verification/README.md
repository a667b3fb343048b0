# hatp_engine

A persistent, embeddable multi-version key-value engine whose logic is verified
with Verus.

- `src/` is the library. It holds the formats of the write-ahead log and the
  manifest, version chains and snapshots, the memtable, flushing, compaction,
  the sidecars, the row codec, table scans, and the engine that ties them
  together. Every function states in its contract what it returns and changes;
  the files that end in `_laws.rs`, and `durability.rs`, state what holds
  across operations: that a write is read back, that flushes, compactions and
  garbage collection change no read, that an engine opened again has every
  commit its files hold, and that a commit whose log was synced is among them
  after a crash.
- `tests/` runs the library on concrete values.
- `app/` is the engine on a real machine: files, threads, the feed of commits,
  Arrow batches, and SSTs as Vortex files.

An engine owns its state and is driven through `&mut self`; whoever shares one
between threads puts it behind a lock, as `app/database.rs` does. Three things
come from outside as traits: `FileIO` for files, `SstFormat` for table files and
`EngineHook` for callbacks. `FakeFileIO`, `MemoryFormat` and `NoopHook` are
implementations that need nothing else.

Outside crates are called through a few trusted items, each of which says above
its declaration which function it stands for and what is claimed of it: `bytes`
(`buf.rs`), `smallvec` (`version.rs`), `crossbeam-skiplist` and `arc-swap`
(`chain_store.rs`, `manifest.rs`), `serde_json` and `arrow-schema`
(`table_schemas.rs`).
