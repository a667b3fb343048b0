//! A persistent, embeddable multi-version key-value engine.
//!
//! The crate holds the engine's logic: the write-ahead log and manifest
//! formats, version chains and snapshots, the memtable, compaction planning
//! and merging, the row codec, and the engine that ties them together.
//! Threads, locks, real files and columnar file formats live outside it.

pub mod batches;
pub mod bloom;
pub mod buf;
pub mod chain_store;
pub mod clock;
pub mod codec;
pub mod column_laws;
pub mod column_predicate;
pub mod column_stats;
pub mod commit_laws;
pub mod committer;
pub mod compact_plan;
pub mod compaction;
pub mod compaction_laws;
pub mod config;
pub mod crash_laws;
pub mod crc32c;
pub mod delete_laws;
pub mod dml;
pub mod dml_laws;
pub mod durability;
pub mod engine;
pub mod engine_laws;
pub mod error;
pub mod fault_injector;
pub mod fault_laws;
pub mod file_io;
pub mod file_laws;
pub mod hook;
pub mod id_map;
pub mod key_index;
pub mod keys;
pub mod listing;
pub mod manifest;
pub mod manifest_laws;
pub mod memtable;
pub mod memtable_laws;
pub mod merge;
pub mod metrics;
pub mod mutation;
pub mod name_map;
pub mod operation_laws;
pub mod order_laws;
pub mod partition_laws;
pub mod paths;
pub mod pins;
pub mod pk;
pub mod pk_laws;
pub mod plan_laws;
pub mod pressure;
pub mod recovery;
pub mod row_codec;
pub mod scalar;
pub mod scan_laws;
pub mod scans;
pub mod schema;
pub mod sidecars;
pub mod sst_format;
pub mod stats_laws;
pub mod summaries;
pub mod table_scan;
pub mod table_scan_laws;
pub mod table_schemas;
pub mod tables;
pub mod tables_laws;
pub mod tables_model;
pub mod text;
pub mod upkeep_laws;
pub mod version;
pub mod version_laws;
pub mod version_set;
pub mod view_laws;
pub mod vortex_sst;
pub mod wal;
pub mod wal_laws;
pub mod watch;
pub mod worker;

pub use crate::clock::{Clock, ManualClock, SystemClock};
pub use crate::config::{EngineConfig, SyncMode};
pub use crate::engine::{Engine, ScanStats};
pub use crate::error::{EngineError, Result};
pub use crate::hook::{EngineHook, NoopHook};
pub use crate::keys::assemble_table_key;
pub use crate::mutation::Mutation;
pub use crate::version::{Snapshot, TxnTs, VersionChain, VersionedValue, OPEN_ENDED_TS};
pub use crate::watch::{WatchEvent, Watcher};
