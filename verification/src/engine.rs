//! The engine: committed writes, files on disk and snapshots behind one
//! interface.

use crate::batches::{fits_schema, max_index, projection_text, projection_view, schema_view};
use crate::buf::{bytes_slice, bytes_view, opt_bytes_view, sorted_keys, ByteMap};
use crate::chain_store::chains_read;
use crate::clock::{may_show, Clock};
use crate::column_predicate::{predicate_models, ColumnPredicate, PredicateModel};
use crate::column_stats::schema_map;
use crate::committer::{
    emptied, event_models, group_done, group_outcome, hooked_outcome, in_step, may_judge,
    pending_models, reserved, snapshot_of, Committer, GroupOutcome, PendingWrite, WriteModel,
};
use crate::compact_plan::{chunks_of, handle_meta, split};
use crate::compaction::{file_models, may_pick, CompactionJob, CompactionPicker, FileMeta};
use crate::config::{EngineConfig, SyncMode};
use crate::dml::{
    all_keyed, all_rows_fit, delete_for_key, deletes_for_rows, deletes_of, is_first_key_error,
    is_first_row_error, matching_keys, puts_for_rows, puts_of, rows_of_batches, stored_rows,
};
use crate::error::{EngineError, Result};
use crate::file_io::{cut_may_fail, file_bytes, is_cut, may_read, may_sync, same_reach, FileIO};
use crate::hook::{EngineHook, NoopHook};
use crate::keys::{assemble_table_key, prefix_upper, table_key, table_prefix, table_prefix_of};
use crate::listing::lists;
use crate::manifest::{is_man1, parse_edits, unsupported_manifest_text, Manifest};
use crate::memtable::{
    chains_gc, gc_dropped, keys_with, live_pairs, pair_models, range_scan, row_models, table_rows,
    MemTable, MemTableImpl, RowModel,
};
use crate::merge::{count_at, version_map};
use crate::metrics::{wrapped, EngineMetrics, MetricsSnapshot};
use crate::mutation::{mutation_models, Mutation};
use crate::name_map::NameMap;
use crate::paths::{joined_path, manifest_path, wal_path};
use crate::pins::{is_watermark, pinned, unpinned, SnapshotPins};
use crate::pk::{
    are_key_columns, fixed_parts, fixes_key, has_named, resolve_pk_columns,
    resolve_pk_columns_via_schema, try_extract_pk_eq_from_predicates, PkCodec,
};
use crate::pressure::{level_of, PressureConfig, ThrottleLevel};
use crate::recovery::{
    apply_groups, groups_applicable, groups_of, highest_tx, replay_wal, size_of_groups, ts_after,
};
use crate::scalar::ScalarModel;
use crate::scans::{
    all_entries, entries, lemma_newest_concat, live_entries, merge_pairs, merge_visible,
    newest_of_all, offered, offered_by, opt_pair_models, searched,
};
use crate::schema::{ColumnBatch, FieldModel, Schema};
use crate::sst_format::{opt_version, SstFormat, SstHandle, ZoneMap};
use crate::summaries::{
    are_file_models, are_table_zones, compaction_files, is_byte_total, table_zone_maps,
    total_sst_bytes,
};
use crate::table_scan::{
    is_partitioned, is_table_fault, is_table_scan, opt_models, partition_fault, scan_table,
    scan_table_arrow, schema_for, unknown_table_text, young_fits,
};
use crate::tables::{
    compaction_failed, flush_done, flush_failed, in_scan, in_snapshot, is_listing, level_files,
    mark_edits, no_sidecar_files, shown_at, sidecar_files_fit, tallied, tallied_by, Tables,
    SUB_COMPACTION_MAX_BYTES,
};
use crate::tables_laws::is_flushed;
use crate::tables_model::{law_table_rows_settled, value_of, TablesModel};
use crate::version::{Snapshot, VersionModel, VersionedValue};
use crate::version_set::{id_after, VersionSetModel};
use crate::wal::{emptying, is_wal1, open_may_fail, parse_log, unsupported_wal_text, Wal};
use crate::watch::{WatchEvent, Watcher};
use bytes::Bytes;
use vstd::prelude::*;
use vstd::string::StringExecFns;

verus! {

/// What an engine holds: its write path, its files and its pinned snapshots.
#[verifier::ext_equal]
pub struct EngineModel {
    pub write: WriteModel,
    pub tables: TablesModel,
    pub pins: Map<u64, usize>,
}

/// The thresholds an engine was opened with.
#[derive(Clone, Copy)]
pub struct EngineSettings {
    /// Size of the memtable from which a flush is due.
    pub memtable_flush_bytes: usize,
    /// Size of the log above which a flush empties it.
    pub wal_max_size_bytes: u64,
    /// Milliseconds between two collections of garbage.
    pub gc_interval: u64,
    /// How commits reach the disk.
    pub sync_mode: SyncMode,
}

/// A durable key-value store with snapshots.
///
/// The engine owns its state: whoever shares one between threads puts it
/// behind a lock.
pub struct Engine<F: FileIO, S: SstFormat, H: EngineHook, P: CompactionPicker, C: Clock> {
    committer: Committer<F>,
    tables: Tables<F, S>,
    pins: SnapshotPins,
    hook: H,
    picker: P,
    clock: C,
    settings: EngineSettings,
    key_columns: NameMap<Vec<(usize, String)>>,
}

impl<F: FileIO, S: SstFormat, H: EngineHook, P: CompactionPicker, C: Clock> View for Engine<
    F,
    S,
    H,
    P,
    C,
> {
    type V = EngineModel;

    closed spec fn view(&self) -> EngineModel {
        EngineModel { write: self.committer@, tables: self.tables@, pins: self.pins@ }
    }
}

/// What opening a directory restores from its log and manifest bytes.
pub open spec fn is_opened(m: EngineModel, dir: Seq<char>, log: Seq<u8>, manifest: Seq<u8>) -> bool {
    let records = parse_log(log, 0).records;
    let groups = groups_of(records);
    &&& is_wal1(log)
    &&& parse_log(log, 0).stop is Torn
    &&& is_man1(manifest)
    &&& parse_edits(manifest, 0).stop is Torn
    &&& groups_applicable(groups)
    &&& m.write.log == log.take(parse_log(log, 0).valid)
    &&& m.write.next_tx_id == id_after(highest_tx(records))
    &&& m.write.listeners == 0
    &&& m.write.events.len() == 0
    &&& m.write.resolved == snapshot_of(m.write)
    &&& m.write.bytes == size_of_groups(0, groups)
    &&& (EngineMetrics { sst_read_failures: 0, ..m.write.metrics }).is_zero()
    &&& m.tables.dir == dir
    &&& m.tables.version == VersionSetModel::empty().replay(parse_edits(manifest, 0).edits)
    &&& m.tables.stats_version == 1
    &&& m.pins == Map::<u64, usize>::empty()
    &&& exists|max_commit: u64| #[trigger]
        tallied(m.tables, max_commit, m.write.metrics.sst_read_failures) && {
            &&& m.write.chains == apply_groups(Map::empty(), groups, id_after(max_commit))
            &&& m.write.commit_seq == ts_after(id_after(max_commit), groups.len())
        }
}

/// The commits of the log follow the newest commit of the files that could be
/// read, and which could is as the format may answer.
pub open spec fn follows_files<S: SstFormat>(format: S, m: EngineModel, log: Seq<u8>) -> bool {
    let groups = groups_of(parse_log(log, 0).records);
    exists|max_commit: u64| #[trigger]
        tallied_by(format, m.tables, max_commit, m.write.metrics.sst_read_failures) && {
            &&& m.write.chains == apply_groups(Map::empty(), groups, id_after(max_commit))
            &&& m.write.commit_seq == ts_after(id_after(max_commit), groups.len())
        }
}

/// Why opening may fail: log or manifest cannot be read, cut or synced, they
/// are in another format, a frame is not one of theirs, or the log has a put
/// without a value.
pub open spec fn is_open_error<F: FileIO>(e: EngineError, wal_file: F, manifest_file: F) -> bool {
    let log = file_bytes(wal_file.files(), wal_file.current());
    let manifest = file_bytes(manifest_file.files(), manifest_file.current());
    ||| e is Io && may_read(wal_file, false)
    ||| e is Io && exists|io: F| #[trigger]
        same_reach(io, wal_file) && open_may_fail(io, parse_log(log, 0).valid)
    ||| e is Io && cut_may_fail(manifest_file, parse_edits(manifest, 0).valid)
    ||| !is_wal1(log) && e.is_message(unsupported_wal_text())
    ||| is_wal1(log) && crate::wal::is_parse_error(e, parse_log(log, 0).stop)
    ||| !is_man1(manifest) && e.is_message(
        unsupported_manifest_text(),
    )
    ||| is_man1(manifest) && crate::manifest::is_parse_error(
        e,
        parse_edits(manifest, 0).stop,
    )
    ||| !groups_applicable(groups_of(parse_log(log, 0).records)) && e.is_corrupt(
        "put WAL record has no value",
    )
}

impl<F: FileIO, S: SstFormat, H: EngineHook, P: CompactionPicker, C: Clock> Engine<F, S, H, P, C> {
    /// The parts are consistent.
    pub closed spec fn wf(&self) -> bool {
        &&& self.committer.wf()
        &&& self.committer.sync_mode() == self.settings.sync_mode
        &&& self.tables.wf()
        &&& self.pins.wf()
        &&& self.key_columns.wf()
    }

    /// The files of the engine.
    pub closed spec fn files(&self) -> Tables<F, S> {
        self.tables
    }

    /// The handle on the log.
    pub closed spec fn log_handle(&self) -> F {
        self.committer.log_handle()
    }

    /// The thresholds the engine was opened with.
    pub closed spec fn settings(&self) -> EngineSettings {
        self.settings
    }

    /// How the engine throttles writers.
    pub closed spec fn tuning(&self) -> PressureConfig {
        self.committer.tuning()
    }

    /// Which backend the memtable uses.
    pub closed spec fn memtable_kind(&self) -> Option<MemTableImpl> {
        self.committer.memtable_kind()
    }

    /// The hook that was installed.
    pub closed spec fn spec_hook(&self) -> H {
        self.hook
    }

    /// The clock.
    pub closed spec fn spec_clock(&self) -> C {
        self.clock
    }

    /// The picker of compactions, as its workload has left it.
    pub closed spec fn spec_picker(&self) -> P {
        self.picker
    }

    /// The key columns that each table was first ingested with.
    pub closed spec fn known_keys(&self) -> Map<Seq<char>, Seq<(usize, String)>> {
        column_lists(self.key_columns@)
    }

    /// Nothing that an engine is opened with has changed, but for the picker,
    /// and no key columns have become known.
    pub open spec fn same_setup(&self, before: &Self) -> bool {
        &&& self.same_parts(before)
        &&& self.known_keys() == before.known_keys()
    }

    /// Nothing that an engine is opened with has changed, but for the picker.
    pub open spec fn same_parts(&self, before: &Self) -> bool {
        &&& self.settings() == before.settings()
        &&& self.tuning() == before.tuning()
        &&& self.memtable_kind() == before.memtable_kind()
        &&& self.spec_hook() == before.spec_hook()
        &&& self.spec_clock() == before.spec_clock()
    }

    /// The read path answers from files that hold what is recorded of them.
    pub open spec fn sound(&self) -> bool {
        self.files().sound()
    }

    /// No file of a later id has left a sidecar behind.
    pub open spec fn clean_ahead(&self) -> bool {
        self.files().clean_ahead()
    }

    /// Opens a directory: the log, the manifest and the sidecars come as
    /// files, the schemas as read from theirs.
    ///
    /// The files that the manifest lists tell the newest commit on disk;
    /// committed transactions of the log are replayed after it, in the order
    /// of their commits. A table file that cannot be read is counted and does
    /// not stop the opening.
    pub fn open_with_hook(
        config: EngineConfig<C, P, S>,
        hook: H,
        wal_file: F,
        manifest_file: F,
        disk: F,
        schemas: NameMap<Schema>,
    ) -> (r: Result<Self>)
        requires
            config.sst_format.wf(),
            wal_file.wf(),
            manifest_file.wf(),
            manifest_file.current() == joined_path(config.path@, "MANIFEST"@),
            disk.wf(),
            schemas.wf(),
        ensures
            ({
                let log = file_bytes(wal_file.files(), wal_file.current());
                let manifest = file_bytes(manifest_file.files(), manifest_file.current());
                &&& r matches Ok(e) ==> {
                    &&& e.wf()
                    &&& is_opened(e@, config.path@, log, manifest)
                    &&& follows_files(config.sst_format, e@, log)
                    &&& e@.tables.stored == config.sst_format.stored()
                    &&& e@.tables.schemas == schema_map(schemas@)
                    &&& e.settings().memtable_flush_bytes == config.memtable_flush_bytes
                    &&& e.settings().wal_max_size_bytes == config.wal_max_size_bytes
                    &&& e.settings().gc_interval == config.gc_interval
                    &&& e.settings().sync_mode == config.sync_mode
                    &&& e.tuning() == config.pressure
                    &&& e.memtable_kind() == Some(config.memtable_impl)
                    &&& is_cut(e.log_handle(), wal_file, parse_log(log, 0).valid)
                    &&& is_cut(
                        e.files().manifest().handle(),
                        manifest_file,
                        parse_edits(manifest, 0).valid,
                    )
                    &&& e.files().format() == config.sst_format
                    &&& e.files().sidecars().is_new(config.path@, disk)
                    &&& e.known_keys() == Map::<Seq<char>, Seq<(usize, String)>>::empty()
                    &&& e.spec_hook() == hook
                    &&& e.spec_clock() == config.clock
                    &&& e.spec_picker() == config.compaction_picker
                    &&& forall|id: u64|
                        #![trigger e.files().describes_as(id, e@.tables.rows(id))]
                        sidecar_files_fit(disk.files(), config.path@, id, e@.tables.rows(id))
                            ==> e.files().describes_as(id, e@.tables.rows(id))
                    &&& no_sidecar_files(
                        disk.files(),
                        config.path@,
                        e@.tables.version.next_file_id,
                    ) ==> e.clean_ahead()
                }
                &&& r matches Err(e) ==> is_open_error(e, wal_file, manifest_file)
            }),
    {
        let ghost given = wal_file;
        let ghost format = config.sst_format;
        let wal_name = wal_path(config.path.as_str());
        let manifest_name = manifest_path(config.path.as_str());
        let mut wal_file = wal_file;
        let records = match Wal::recover(&mut wal_file) {
            Ok(rs) => rs,
            Err(e) => {
                return Err(e);
            },
        };
        let mut memtable: MemTable = MemTable::with_impl(config.memtable_impl);
        let manifest = match Manifest::open(manifest_name.as_str(), manifest_file) {
            Ok(m) => m,
            Err(e) => {
                return Err(e);
            },
        };
        let (tables, recovered) = Tables::open(
            config.path.as_str(),
            config.sst_format,
            manifest,
            disk,
            schemas,
        );
        let first_ts: u64 = recovered.max_commit.saturating_add(1);
        let replayed = match replay_wal(&mut memtable, records.as_slice(), first_ts) {
            Ok(p) => p,
            Err(e) => {
                return Err(e);
            },
        };
        assert(same_reach(wal_file, given));
        let wal = match Wal::open(wal_name.as_str(), wal_file) {
            Ok(w) => w,
            Err(e) => {
                return Err(e);
            },
        };
        let mut metrics = EngineMetrics::new();
        metrics.sst_read_failures = recovered.read_failures;
        let committer = Committer::new(
            wal,
            memtable,
            replayed.next_commit_ts,
            replayed.highest_tx.saturating_add(1),
            config.sync_mode,
            config.pressure,
            metrics,
        );
        let settings = EngineSettings {
            memtable_flush_bytes: config.memtable_flush_bytes,
            wal_max_size_bytes: config.wal_max_size_bytes,
            gc_interval: config.gc_interval,
            sync_mode: config.sync_mode,
        };
        let engine = Engine {
            committer,
            tables,
            pins: SnapshotPins::new(),
            hook,
            picker: config.compaction_picker,
            clock: config.clock,
            settings,
            key_columns: NameMap::new(),
        };
        assert(engine.known_keys() =~= Map::empty());
        assert(tallied_by(
            format,
            engine@.tables,
            recovered.max_commit,
            engine@.write.metrics.sst_read_failures,
        ));
        assert(tallied(
            engine@.tables,
            recovered.max_commit,
            engine@.write.metrics.sst_read_failures,
        ));
        Ok(engine)
    }
}

impl<F: FileIO, S: SstFormat, P: CompactionPicker, C: Clock> Engine<F, S, NoopHook, P, C> {
    /// Opens a directory without a hook.
    pub fn open(
        config: EngineConfig<C, P, S>,
        wal_file: F,
        manifest_file: F,
        disk: F,
        schemas: NameMap<Schema>,
    ) -> (r: Result<Self>)
        requires
            config.sst_format.wf(),
            wal_file.wf(),
            manifest_file.wf(),
            manifest_file.current() == joined_path(config.path@, "MANIFEST"@),
            disk.wf(),
            schemas.wf(),
        ensures
            ({
                let log = file_bytes(wal_file.files(), wal_file.current());
                let manifest = file_bytes(manifest_file.files(), manifest_file.current());
                &&& r matches Ok(e) ==> {
                    &&& e.wf()
                    &&& is_opened(e@, config.path@, log, manifest)
                    &&& follows_files(config.sst_format, e@, log)
                    &&& e@.tables.stored == config.sst_format.stored()
                    &&& e@.tables.schemas == schema_map(schemas@)
                    &&& e.settings().memtable_flush_bytes == config.memtable_flush_bytes
                    &&& e.settings().wal_max_size_bytes == config.wal_max_size_bytes
                    &&& e.settings().gc_interval == config.gc_interval
                    &&& e.settings().sync_mode == config.sync_mode
                    &&& e.tuning() == config.pressure
                    &&& e.memtable_kind() == Some(config.memtable_impl)
                    &&& is_cut(e.log_handle(), wal_file, parse_log(log, 0).valid)
                    &&& is_cut(
                        e.files().manifest().handle(),
                        manifest_file,
                        parse_edits(manifest, 0).valid,
                    )
                    &&& e.files().format() == config.sst_format
                    &&& e.files().sidecars().is_new(config.path@, disk)
                    &&& e.known_keys() == Map::<Seq<char>, Seq<(usize, String)>>::empty()
                    &&& e.spec_hook() == NoopHook
                    &&& e.spec_clock() == config.clock
                    &&& e.spec_picker() == config.compaction_picker
                    &&& forall|id: u64|
                        #![trigger e.files().describes_as(id, e@.tables.rows(id))]
                        sidecar_files_fit(disk.files(), config.path@, id, e@.tables.rows(id))
                            ==> e.files().describes_as(id, e@.tables.rows(id))
                    &&& no_sidecar_files(
                        disk.files(),
                        config.path@,
                        e@.tables.version.next_file_id,
                    ) ==> e.clean_ahead()
                }
                &&& r matches Err(e) ==> is_open_error(e, wal_file, manifest_file)
            }),
    {
        Self::open_with_hook(config, NoopHook, wal_file, manifest_file, disk, schemas)
    }
}

/// The write path after its memtable went to a file of `bytes` bytes, with
/// `log` left in the log.
pub open spec fn drained(m: WriteModel, bytes: u64, log: Seq<u8>) -> WriteModel {
    WriteModel {
        chains: Map::empty(),
        bytes: 0,
        log,
        metrics: EngineMetrics {
            flush_count: wrapped(m.metrics.flush_count, 1),
            sst_bytes_written: wrapped(m.metrics.sst_bytes_written, bytes),
            memtable_bytes: 0,
            ..m.metrics
        },
        ..m
    }
}

/// A flush of the rows `rs` gave a file, wrote its sidecars as far as it could
/// and recorded it, at a time that the clock may show.
pub open spec fn flush_made<F: FileIO, S: SstFormat, C: Clock>(
    before: Tables<F, S>,
    clock: C,
    after: Tables<F, S>,
    rs: Seq<RowModel>,
    h: SstHandle,
) -> bool {
    &&& exists|at: u64|
        may_show(clock, at) && #[trigger] flush_done(before@, after@, rs, h, at) && before.flushing(
            rs,
            at,
            Ok(h),
        )
    &&& exists|done: bool| #[trigger]
        after.sidecars().both_written(
            &before.sidecars(),
            before@.version.next_file_id,
            rs,
            done,
        )
}

/// A log above its limit was emptied, unless its size could not be read.
pub open spec fn log_trimmed<F: FileIO>(
    log: F,
    before: Seq<u8>,
    after: Seq<u8>,
    limit: u64,
) -> bool {
    exists|read: bool| #[trigger]
        may_read(log, read) && after == (if read && before.len() > limit {
            Seq::empty()
        } else {
            before
        })
}

/// The memtable was emptied, but emptying the log failed.
pub open spec fn trim_failed<F: FileIO>(log: F, before: WriteModel, after: WriteModel) -> bool {
    &&& after == emptied(before) || after == (WriteModel { log: Seq::empty(), ..emptied(before) })
    &&& exists|io: F| #[trigger] same_reach(io, log) && emptying(io, false)
}

/// What a compaction of two levels did to the files.
pub open spec fn compact_outcome<F: FileIO, S: SstFormat>(
    before: Tables<F, S>,
    after: Tables<F, S>,
    sl: u32,
    tl: u32,
    watermark: u64,
    at: u64,
    r: Result<Option<SstHandle>>,
) -> bool {
    &&& before.sound() && before.clean_ahead() && before@.version.next_file_id + 1 < u64::MAX
        ==> after.sound()
    &&& exists|inputs: Seq<u64>| #[trigger]
        lists(inputs, level_files(before@.version, sl, tl)) && (match r {
            Ok(None) => inputs.len() < 2 && after == before,
            Ok(Some(h)) => inputs.len() >= 2 && after.compacts(
                &before,
                inputs,
                seq![inputs],
                sl,
                tl,
                watermark,
                at,
                seq![h],
            ),
            Err(_) => inputs.len() >= 2 && compaction_failed(
                before,
                after,
                inputs,
                seq![inputs],
                sl,
                tl,
                watermark,
                at,
            ) && before.compaction_may_fail(inputs, seq![inputs], sl, tl, watermark, at),
        })
}

/// What a compaction of two levels by parts did to the files.
pub open spec fn sub_compact_outcome<F: FileIO, S: SstFormat>(
    before: Tables<F, S>,
    after: Tables<F, S>,
    sl: u32,
    tl: u32,
    watermark: u64,
    at: u64,
    r: Result<Option<Vec<SstHandle>>>,
) -> bool {
    exists|inputs: Seq<u64>| #[trigger]
        lists(inputs, level_files(before@.version, sl, tl)) && ({
            let chunks = chunks_of(split(inputs, before@.version.meta, SUB_COMPACTION_MAX_BYTES));
            &&& before.ready_for(inputs, sl, tl, chunks) ==> after.sound()
            &&& match r {
                Ok(None) => inputs.len() < 2 && after == before,
                Ok(Some(hs)) => inputs.len() >= 2 && after.compacts(
                    &before,
                    inputs,
                    chunks,
                    sl,
                    tl,
                    watermark,
                    at,
                    hs@,
                ),
                Err(_) => inputs.len() >= 2 && compaction_failed(
                    before,
                    after,
                    inputs,
                    chunks,
                    sl,
                    tl,
                    watermark,
                    at,
                ) && before.compaction_may_fail(inputs, chunks, sl, tl, watermark, at),
            }
        })
}

/// The write path after a compaction, which is counted where files changed.
pub open spec fn compaction_counted(m: WriteModel, done: bool) -> WriteModel {
    if done {
        WriteModel {
            metrics: EngineMetrics {
                compaction_count: wrapped(m.metrics.compaction_count, 1),
                ..m.metrics
            },
            ..m
        }
    } else {
        m
    }
}

/// The newest visible version of every key in a range.
pub open spec fn range_contents(
    m: EngineModel,
    ids: Seq<u64>,
    lower: Seq<u8>,
    upper: Seq<u8>,
    ts: u64,
) -> Map<Seq<u8>, VersionModel> {
    newest_of_all(
        Map::empty(),
        range_scan(m.write.chains, lower, upper, ts) + offered_by(
            m.tables,
            searched(m.tables, ids, lower, upper),
            in_scan(m.tables, lower, upper, ts),
        ),
    )
}

/// The newest visible version of every key.
pub open spec fn all_contents(m: EngineModel, ids: Seq<u64>, ts: u64) -> Map<Seq<u8>, VersionModel> {
    newest_of_all(
        Map::empty(),
        offered(table_rows(m.write.chains), shown_at(ts)) + offered_by(
            m.tables,
            ids,
            in_snapshot(m.tables, ts),
        ),
    )
}

/// Rows held in memory and in files.
#[derive(Debug, Clone, Copy, PartialEq, Eq, Structural)]
pub struct ScanStats {
    /// Every version in the memtable.
    pub memtable_rows: usize,
    /// Every row in the files.
    pub sst_rows: usize,
}

impl<F: FileIO, S: SstFormat, H: EngineHook, P: CompactionPicker, C: Clock> Engine<F, S, H, P, C> {
    /// Returns the installed hook.
    pub fn hook(&self) -> (r: &H)
        ensures
            *r == self.spec_hook(),
    {
        &self.hook
    }

    /// Returns the counters of the engine.
    pub fn metrics(&self) -> (r: &EngineMetrics)
        ensures
            *r == self@.write.metrics,
    {
        self.committer.metrics()
    }

    /// Returns the schema registered for a table.
    pub fn table_schema(&self, table: &str) -> (r: Option<&Schema>)
        requires
            self.wf(),
        ensures
            r is Some <==> self@.tables.schemas.contains_key(table@),
            r matches Some(s) ==> s@ == self@.tables.schemas[table@],
    {
        self.tables.schema(table)
    }

    /// Returns the directory that holds the durable state.
    pub fn path(&self) -> (r: &str)
        ensures
            r@ == self@.tables.dir,
    {
        self.tables.dir_text()
    }

    /// Returns the live memtable.
    pub fn memtable(&self) -> (r: &MemTable)
        requires
            self.wf(),
        ensures
            r.wf(),
            r.chains() == self@.write.chains,
            r.size() == self@.write.bytes,
    {
        self.committer.memtable()
    }

    /// Returns the timestamp of the latest commit: a read there sees every
    /// committed version, whatever ids are reserved.
    pub fn snapshot_ts(&self) -> (r: u64)
        ensures
            r == snapshot_of(self@.write),
    {
        self.committer.snapshot_ts()
    }

    /// Returns how far commits have progressed.
    pub fn watcher(&self) -> (r: &Watcher)
        ensures
            r.resolved() == self@.write.resolved,
            r.listeners() == self@.write.listeners,
    {
        self.committer.watcher()
    }

    /// Records how many consumers wait for commit events: without one, no
    /// event is kept.
    pub fn set_subscribers(&mut self, subscribers: usize)
        requires
            old(self).wf(),
        ensures
            final(self).wf(),
            final(self).same_setup(old(self)),
            final(self).files() == old(self).files(),
            final(self)@ == (EngineModel {
                write: WriteModel { listeners: subscribers, ..old(self)@.write },
                ..old(self)@
            }),
    {
        self.committer.set_subscribers(subscribers);
    }

    /// Hands out the commit events since the last call, in commit order.
    pub fn take_events(&mut self) -> (r: Vec<WatchEvent>)
        requires
            old(self).wf(),
        ensures
            final(self).wf(),
            final(self).same_setup(old(self)),
            final(self).files() == old(self).files(),
            event_models(r@) == old(self)@.write.events,
            final(self)@ == (EngineModel {
                write: WriteModel { events: Seq::empty(), ..old(self)@.write },
                ..old(self)@
            }),
    {
        self.committer.take_events()
    }

    /// Returns a number that grows with every flush and compaction.
    pub fn stats_version(&self) -> (r: u64)
        ensures
            r == self@.tables.stats_version,
    {
        self.tables.stats_version()
    }

    /// Pins a snapshot: garbage collection and compaction keep what is visible
    /// there until it is unpinned as many times as it was pinned.
    pub fn pin_snapshot(&mut self, snapshot_ts: u64)
        requires
            old(self).wf(),
        ensures
            final(self).wf(),
            final(self).same_setup(old(self)),
            final(self).files() == old(self).files(),
            final(self)@ == (EngineModel {
                pins: pinned(old(self)@.pins, snapshot_ts),
                ..old(self)@
            }),
    {
        self.pins.pin(snapshot_ts);
    }

    /// Pins the latest committed snapshot and returns it.
    pub fn begin_read(&mut self) -> (r: u64)
        requires
            old(self).wf(),
        ensures
            final(self).wf(),
            final(self).same_setup(old(self)),
            final(self).files() == old(self).files(),
            r == snapshot_of(old(self)@.write),
            final(self)@ == (EngineModel { pins: pinned(old(self)@.pins, r), ..old(self)@ }),
    {
        let snapshot_ts: u64 = self.committer.snapshot_ts();
        self.pins.pin(snapshot_ts);
        snapshot_ts
    }

    /// Releases one pin of a snapshot.
    pub fn unpin_snapshot(&mut self, snapshot_ts: u64)
        requires
            old(self).wf(),
        ensures
            final(self).wf(),
            final(self).same_setup(old(self)),
            final(self).files() == old(self).files(),
            final(self)@ == (EngineModel {
                pins: unpinned(old(self)@.pins, snapshot_ts),
                ..old(self)@
            }),
    {
        self.pins.unpin(snapshot_ts);
    }

    /// Returns the oldest snapshot that a reader may still use: the least of
    /// the pinned ones and the latest commit.
    pub fn watermark(&self) -> (r: u64)
        requires
            self.wf(),
        ensures
            is_watermark(r, self@.pins, snapshot_of(self@.write)),
    {
        self.pins.watermark(self.committer.snapshot_ts())
    }

    /// Lists the files of all levels.
    pub fn sst_file_ids(&self) -> (r: Vec<u64>)
        requires
            self.wf(),
        ensures
            is_listing(r@, self@.tables.version),
    {
        self.tables.file_ids()
    }

    /// Reserves a transaction id without writing anything.
    pub fn reserve_tx_id(&mut self) -> (r: u64)
        requires
            old(self).wf(),
        ensures
            final(self).wf(),
            final(self).same_setup(old(self)),
            final(self).files() == old(self).files(),
            r > 0,
            r == (if old(self)@.write.next_tx_id == 0 {
                1
            } else {
                old(self)@.write.next_tx_id
            }),
            final(self)@ == (EngineModel {
                write: WriteModel { next_tx_id: wrapped(r, 1), ..old(self)@.write },
                ..old(self)@
            }),
    {
        self.committer.alloc_tx_id()
    }

    /// How hard the memtable presses on writers.
    pub fn throttle_level(&self) -> (r: ThrottleLevel)
        ensures
            r == level_of(self.tuning(), self@.write.metrics.memtable_bytes),
    {
        self.committer.throttle_level()
    }

    /// Milliseconds that a softly throttled writer waits before it commits.
    pub fn soft_sleep(&self) -> (r: u64)
        ensures
            r == self.tuning().soft_sleep_millis,
    {
        self.committer.soft_sleep()
    }

    /// Commits a batch as one transaction and returns its commit timestamp.
    pub fn write(&mut self, mutations: &[Mutation]) -> (r: Result<u64>)
        requires
            old(self).wf(),
        ensures
            final(self).wf(),
            final(self).same_setup(old(self)),
            final(self).files() == old(self).files(),
            final(self)@.tables == old(self)@.tables,
            final(self)@.pins == old(self)@.pins,
            mutations@.len() == 0 ==> final(self)@ == old(self)@ && r == Err::<u64, EngineError>(
                EngineError::EmptyBatch,
            ),
            mutations@.len() > 0 ==> ({
                let tx_id = if old(self)@.write.next_tx_id == 0 {
                    1
                } else {
                    old(self)@.write.next_tx_id
                };
                let before = WriteModel { next_tx_id: wrapped(tx_id, 1), ..old(self)@.write };
                hooked_outcome(
                    old(self).spec_hook(),
                    old(self).log_handle(),
                    old(self).settings().sync_mode,
                    before,
                    final(self)@.write,
                    old(self).tuning(),
                    tx_id,
                    mutations@,
                    r,
                )
            }),
    {
        self.committer.write(&self.hook, mutations)
    }

    /// Commits a batch under an id that was reserved before.
    pub fn write_with_tx(&mut self, tx_id: u64, mutations: &[Mutation]) -> (r: Result<u64>)
        requires
            old(self).wf(),
        ensures
            final(self).wf(),
            final(self).same_setup(old(self)),
            final(self).files() == old(self).files(),
            final(self)@.tables == old(self)@.tables,
            final(self)@.pins == old(self)@.pins,
            hooked_outcome(
                old(self).spec_hook(),
                old(self).log_handle(),
                old(self).settings().sync_mode,
                old(self)@.write,
                final(self)@.write,
                old(self).tuning(),
                tx_id,
                mutations@,
                r,
            ),
    {
        self.committer.write_with_tx(&self.hook, tx_id, mutations)
    }

    /// Accepts a write under `tx_id` and tells how hard it is throttled; what
    /// is accepted may wait and commit with others.
    pub fn accept(&mut self, tx_id: u64, mutations: &[Mutation]) -> (r: Result<ThrottleLevel>)
        requires
            old(self).wf(),
        ensures
            final(self).wf(),
            final(self).same_setup(old(self)),
            final(self).files() == old(self).files(),
            final(self)@.tables == old(self)@.tables,
            final(self)@.pins == old(self)@.pins,
            if mutations@.len() == 0 {
                final(self)@ == old(self)@ && r == Err::<ThrottleLevel, EngineError>(
                    EngineError::EmptyBatch,
                )
            } else if tx_id == 0 {
                final(self)@ == old(self)@ && (r matches Err(e) && e.is_corrupt(
                    "tx_id 0 is reserved as sentinel",
                ))
            } else {
                let level = level_of(old(self).tuning(), old(self)@.write.metrics.memtable_bytes);
                &&& final(self)@.write == reserved(old(self)@.write, tx_id)
                &&& r == (if level == ThrottleLevel::Hard {
                    Err::<ThrottleLevel, EngineError>(EngineError::Throttled)
                } else {
                    Ok::<ThrottleLevel, EngineError>(level)
                })
            },
    {
        self.committer.accept(tx_id, mutations)
    }

    /// Commits the waiting writes as one group: one log append for all that
    /// the hook admits.
    pub fn commit_pending(&mut self, batch: &[PendingWrite]) -> (r: GroupOutcome)
        requires
            old(self).wf(),
        ensures
            final(self).wf(),
            final(self).same_setup(old(self)),
            final(self).files() == old(self).files(),
            final(self)@.tables == old(self)@.tables,
            final(self)@.pins == old(self)@.pins,
            exists|verdicts: Seq<Result<()>>|
                may_judge(old(self).spec_hook(), batch@, verdicts) && #[trigger] group_outcome(
                    old(self)@.write,
                    final(self)@.write,
                    pending_models(batch@),
                    verdicts,
                    r,
                ) && group_done(
                    old(self).log_handle(),
                    old(self).settings().sync_mode,
                    old(self).spec_hook(),
                    batch@,
                    verdicts,
                    r,
                ),
    {
        let r = self.committer.commit_pending(&self.hook, batch);
        proof {
            let verdicts = choose|verdicts: Seq<Result<()>>|
                may_judge(old(self).spec_hook(), batch@, verdicts) && #[trigger] group_outcome(
                    old(self)@.write,
                    self@.write,
                    pending_models(batch@),
                    verdicts,
                    r,
                ) && group_done(
                    old(self).log_handle(),
                    old(self).settings().sync_mode,
                    old(self).spec_hook(),
                    batch@,
                    verdicts,
                    r,
                );
            assert(group_outcome(
                old(self)@.write,
                self@.write,
                pending_models(batch@),
                verdicts,
                r,
            ));
        }
        r
    }

    /// Forces the log to disk.
    pub fn sync_log(&mut self) -> (r: Result<()>)
        requires
            old(self).wf(),
        ensures
            final(self).wf(),
            final(self).same_setup(old(self)),
            final(self).files() == old(self).files(),
            final(self)@ == old(self)@,
            may_sync(old(self).log_handle(), r is Ok),
            r matches Err(e) ==> e is Io,
    {
        self.committer.sync_log()
    }
}

impl<F: FileIO, S: SstFormat, H: EngineHook, P: CompactionPicker, C: Clock> Engine<F, S, H, P, C> {
    /// Reads the newest live value of a key at a snapshot: the memtable first,
    /// then every file that may hold the key. A key of a dropped table has no
    /// value.
    pub fn get(&mut self, key: &[u8], snapshot_ts: u64) -> (r: Result<Option<Bytes>>)
        requires
            old(self).wf(),
        ensures
            final(self).wf(),
            final(self).same_setup(old(self)),
            final(self)@ == old(self)@,
            old(self).sound() ==> final(self).sound(),
            old(self).clean_ahead() ==> final(self).clean_ahead(),
            old(self)@.tables.is_dropped(key@) ==> r is Ok,
            chains_read(old(self)@.write.chains, key@, snapshot_ts) is Some ==> r is Ok,
            old(self)@.tables.no_file_covers(key@) ==> r is Ok,
            r is Err ==> old(self).files().get_may_fail(key@, snapshot_ts),
            !old(self)@.tables.is_dropped(key@) && chains_read(
                old(self)@.write.chains,
                key@,
                snapshot_ts,
            ) is None ==> exists|w: Result<Option<VersionedValue>>| #[trigger]
                final(self).files().sought(&old(self).files(), key@, snapshot_ts, w) && (match w {
                    Ok(found) => r matches Ok(v) && opt_bytes_view(v) == value_of(
                        opt_version(found),
                    ),
                    Err(e) => r == Err::<Option<Bytes>, EngineError>(e),
                }),
            r matches Ok(v) ==> (old(self).sound() || old(self)@.tables.is_dropped(key@)
                || chains_read(old(self)@.write.chains, key@, snapshot_ts) is Some
                ==> old(self)@.tables.reads(
                old(self)@.write.chains,
                key@,
                snapshot_ts,
                opt_bytes_view(v),
            )),
    {
        if self.tables.is_dropped_prefix(key) {
            return Ok(None);
        }
        match self.committer.memtable().get(key, Snapshot::new(snapshot_ts)) {
            Some(version) => {
                return Ok(version.value);
            },
            None => {},
        }
        let sought = self.tables.get_version(key, snapshot_ts);
        assert(self.files().sought(&old(self).files(), key@, snapshot_ts, sought));
        match sought {
            Ok(Some(version)) => {
                assert(value_of(Some(version@)) == opt_bytes_view(version.value));
                Ok(version.value)
            },
            Ok(None) => {
                assert(value_of(None) == opt_bytes_view(None));
                Ok(None)
            },
            Err(e) => Err(e),
        }
    }

    /// Returns whether the memtable has reached the size from which a flush is
    /// due.
    pub fn should_flush(&self) -> (r: bool)
        requires
            self.wf(),
        ensures
            r == (self@.write.bytes >= self.settings().memtable_flush_bytes),
    {
        self.committer.memtable().approximate_bytes() >= self.settings.memtable_flush_bytes
    }

    /// Merges all files of two levels into one file of the target level.
    pub fn compact(&mut self, source_level: u32, target_level: u32) -> (r: Result<
        Option<SstHandle>,
    >)
        requires
            old(self).wf(),
        ensures
            final(self).wf(),
            final(self).same_setup(old(self)),
            final(self).spec_picker() == old(self).spec_picker(),
            final(self)@.pins == old(self)@.pins,
            final(self)@.tables.dir == old(self)@.tables.dir,
            final(self)@.tables.schemas == old(self)@.tables.schemas,
            final(self)@.write == compaction_counted(
                old(self)@.write,
                r matches Ok(h) && h is Some,
            ),
            old(self).sound() && old(self).clean_ahead()
                && old(self)@.tables.version.next_file_id + 1 < u64::MAX ==> final(self).sound(),
            exists|watermark: u64, at: u64|
                is_watermark(watermark, old(self)@.pins, snapshot_of(old(self)@.write)) && may_show(
                    old(self).spec_clock(),
                    at,
                ) && #[trigger] compact_outcome(
                    old(self).files(),
                    final(self).files(),
                    source_level,
                    target_level,
                    watermark,
                    at,
                    r,
                ),
    {
        let watermark: u64 = self.watermark();
        let r = self.compact_with_watermark(source_level, target_level, watermark);
        proof {
            let at = choose|at: u64|
                may_show(old(self).spec_clock(), at) && #[trigger] compact_outcome(
                    old(self).files(),
                    self.files(),
                    source_level,
                    target_level,
                    watermark,
                    at,
                    r,
                );
            assert(compact_outcome(
                old(self).files(),
                self.files(),
                source_level,
                target_level,
                watermark,
                at,
                r,
            ));
        }
        r
    }

    /// Merges all files of two levels; versions that only snapshots before
    /// `watermark` could see are dropped.
    pub fn compact_with_watermark(
        &mut self,
        source_level: u32,
        target_level: u32,
        watermark: u64,
    ) -> (r: Result<Option<SstHandle>>)
        requires
            old(self).wf(),
        ensures
            final(self).wf(),
            final(self).same_setup(old(self)),
            final(self).spec_picker() == old(self).spec_picker(),
            final(self)@.pins == old(self)@.pins,
            final(self)@.tables.dir == old(self)@.tables.dir,
            final(self)@.tables.schemas == old(self)@.tables.schemas,
            final(self)@.write == compaction_counted(
                old(self)@.write,
                r matches Ok(h) && h is Some,
            ),
            old(self).sound() && old(self).clean_ahead()
                && old(self)@.tables.version.next_file_id + 1 < u64::MAX ==> final(self).sound(),
            exists|at: u64|
                may_show(old(self).spec_clock(), at) && #[trigger] compact_outcome(
                    old(self).files(),
                    final(self).files(),
                    source_level,
                    target_level,
                    watermark,
                    at,
                    r,
                ),
    {
        let created_at: u64 = self.clock.now_secs();
        let r = self.tables.compact_with_watermark(
            source_level,
            target_level,
            watermark,
            created_at,
        );
        match &r {
            Ok(Some(_)) => {
                self.committer.record_compaction();
            },
            _ => {},
        }
        assert(compact_outcome(
            old(self).files(),
            self.files(),
            source_level,
            target_level,
            watermark,
            created_at,
            r,
        ));
        r
    }

    /// Merges all files of two levels by parts of bounded size.
    pub fn sub_compact(&mut self, source_level: u32, target_level: u32, watermark: u64) -> (r: Result<
        Option<Vec<SstHandle>>,
    >)
        requires
            old(self).wf(),
        ensures
            final(self).wf(),
            final(self).same_setup(old(self)),
            final(self).spec_picker() == old(self).spec_picker(),
            final(self)@.pins == old(self)@.pins,
            final(self)@.tables.dir == old(self)@.tables.dir,
            final(self)@.tables.schemas == old(self)@.tables.schemas,
            final(self)@.write == compaction_counted(
                old(self)@.write,
                r matches Ok(h) && h is Some,
            ),
            exists|at: u64|
                may_show(old(self).spec_clock(), at) && #[trigger] sub_compact_outcome(
                    old(self).files(),
                    final(self).files(),
                    source_level,
                    target_level,
                    watermark,
                    at,
                    r,
                ),
    {
        let created_at: u64 = self.clock.now_secs();
        let r = self.tables.sub_compact(source_level, target_level, watermark, created_at);
        match &r {
            Ok(Some(_)) => {
                self.committer.record_compaction();
            },
            _ => {},
        }
        assert(sub_compact_outcome(
            old(self).files(),
            self.files(),
            source_level,
            target_level,
            watermark,
            created_at,
            r,
        ));
        r
    }

    /// Writes the memtable to a new file and records it in the manifest; a log
    /// above its limit is emptied, unless its size cannot be read.
    ///
    /// The memtable is emptied once the file is recorded. Where the file
    /// cannot be written or recorded its rows stay.
    pub fn flush(&mut self) -> (r: Result<Option<SstHandle>>)
        requires
            old(self).wf(),
        ensures
            final(self).wf(),
            final(self).same_setup(old(self)),
            final(self)@.pins == old(self)@.pins,
            ({
                let rs = table_rows(old(self)@.write.chains);
                match r {
                    Ok(None) => rs.len() == 0 && final(self)@ == old(self)@ && final(self).files()
                        == old(self).files(),
                    Ok(Some(h)) => {
                        &&& rs.len() > 0
                        &&& flush_made(
                            old(self).files(),
                            old(self).spec_clock(),
                            final(self).files(),
                            rs,
                            h,
                        )
                        &&& final(self)@.write == drained(
                            old(self)@.write,
                            h.bytes,
                            final(self)@.write.log,
                        )
                        &&& log_trimmed(
                            old(self).log_handle(),
                            old(self)@.write.log,
                            final(self)@.write.log,
                            old(self).settings().wal_max_size_bytes,
                        )
                    },
                    Err(e) => {
                        &&& rs.len() > 0
                        &&& {
                            ||| final(self)@.write == old(self)@.write && exists|at: u64| #[trigger]
                                may_show(old(self).spec_clock(), at) && flush_failed(
                                    old(self).files(),
                                    final(self).files(),
                                    rs,
                                    at,
                                ) && old(self).files().flushing(rs, at, Err(e))
                            ||| old(self)@.write.log.len() > old(
                                self,
                            ).settings().wal_max_size_bytes && trim_failed(
                                old(self).log_handle(),
                                old(self)@.write,
                                final(self)@.write,
                            ) && exists|h: SstHandle| #[trigger]
                                flush_made(
                                    old(self).files(),
                                    old(self).spec_clock(),
                                    final(self).files(),
                                    rs,
                                    h,
                                )
                        }
                    },
                }
            }),
            old(self).sound() && old(self).clean_ahead() && in_step(old(self)@.write)
                && old(self)@.tables.version.next_file_id < u64::MAX ==> {
                &&& final(self).sound()
                &&& r is Ok ==> final(self).clean_ahead()
            },
    {
        let rows = self.committer.rows();
        let ghost rs = table_rows(old(self)@.write.chains);
        assert(row_models(rows@).len() == rows@.len());
        if rows.len() == 0 {
            return Ok(None);
        }
        proof {
            if in_step(old(self)@.write) {
                law_table_rows_settled(old(self)@.write.chains);
            }
        }
        let created_at: u64 = self.clock.now_secs();
        assert(may_show(old(self).spec_clock(), created_at));
        let handle = match self.tables.flush_rows(rows.as_slice(), created_at) {
            Ok(h) => h,
            Err(e) => {
                return Err(e);
            },
        };
        proof {
            assert(is_flushed(
                old(self)@.tables,
                self@.tables,
                rs,
                handle_meta(handle, created_at),
            ));
            assert(flush_done(old(self)@.tables, self@.tables, rs, handle, created_at));
        }
        self.committer.clear_memtable();
        let ghost kept = self.committer;
        let limit: u64 = self.settings.wal_max_size_bytes;
        let trimmed = self.committer.truncate_log(limit);
        let ghost read = choose|read: bool| #[trigger]
            may_read(kept.log_handle(), read) && if read && kept@.log.len() > limit {
                &&& trimmed is Ok ==> self.committer@.log == Seq::<u8>::empty()
                &&& exists|io: F| #[trigger]
                    same_reach(io, kept.log_handle()) && emptying(io, trimmed is Ok)
            } else {
                trimmed is Ok && self.committer@ == kept@
            };
        proof {
            assert(may_read(old(self).log_handle(), read));
            assert(flush_done(old(self)@.tables, self@.tables, rs, handle, created_at));
            assert(old(self).files().flushing(rs, created_at, Ok(handle)));
            if trimmed is Err {
                let io = choose|io: F| #[trigger]
                    same_reach(io, kept.log_handle()) && emptying(io, false);
                assert(same_reach(io, old(self).log_handle()));
                assert(trim_failed(old(self).log_handle(), old(self)@.write, self@.write));
            }
            assert(flush_made(
                old(self).files(),
                old(self).spec_clock(),
                self.files(),
                rs,
                handle,
            ));
            assert(trimmed is Ok ==> log_trimmed(
                old(self).log_handle(),
                old(self)@.write.log,
                self@.write.log,
                limit,
            ));
        }
        match trimmed {
            Ok(()) => {},
            Err(e) => {
                return Err(e);
            },
        }
        self.committer.record_flush(handle.bytes);
        assert(self@.write =~= drained(old(self)@.write, handle.bytes, self@.write.log));
        Ok(Some(handle))
    }

    /// Counts the versions in the memtable and the rows in the files.
    pub fn scan_stats(&self) -> (r: Option<ScanStats>)
        requires
            self.wf(),
        ensures
            r matches Some(s) && s.memtable_rows == table_rows(self@.write.chains).len()
                && s.sst_rows == self@.tables.row_count,
    {
        let rows = self.committer.memtable().all_versions();
        assert(row_models(rows@).len() == rows@.len());
        Some(ScanStats { memtable_rows: rows.len(), sst_rows: self.tables.sst_rows() })
    }

    /// Returns how many rows the files hold of a table.
    pub fn table_row_count(&self, table: &str) -> (r: usize)
        requires
            self.wf(),
        ensures
            r == count_at(self@.tables.table_rows, table_prefix_of(table@)),
    {
        self.tables.table_row_count(table)
    }

    /// Drops memtable versions that no snapshot can see any more and returns
    /// how many.
    pub fn garbage_collect(&mut self) -> (r: usize)
        requires
            old(self).wf(),
        ensures
            final(self).wf(),
            final(self).same_setup(old(self)),
            final(self).files() == old(self).files(),
            final(self)@.tables == old(self)@.tables,
            final(self)@.pins == old(self)@.pins,
            exists|watermark: u64| #[trigger]
                is_watermark(watermark, old(self)@.pins, snapshot_of(old(self)@.write)) && {
                    &&& final(self)@.write == (WriteModel {
                        chains: chains_gc(old(self)@.write.chains, watermark),
                        ..old(self)@.write
                    })
                    &&& r == gc_dropped(
                        sorted_keys(old(self)@.write.chains.dom()),
                        old(self)@.write.chains,
                        watermark,
                    )
                },
    {
        let oldest: u64 = self.watermark();
        self.committer.garbage_collect(oldest)
    }

    /// Returns the newest live value of every key in `[lower, upper)` that is
    /// visible at a snapshot, in key order.
    pub fn scan_range(&self, lower: &[u8], upper: &[u8], snapshot_ts: u64) -> (r: Result<
        Vec<(Bytes, Bytes)>,
    >)
        requires
            self.wf(),
        ensures
            self@.tables.has_no_files() ==> r is Ok,
            r is Err ==> self.files().range_may_fail(lower@, upper@, snapshot_ts),
            r matches Ok(out) ==> is_range(
                pair_models(out@),
                self@,
                lower@,
                upper@,
                snapshot_ts,
            ),
    {
        let mut visible: ByteMap<VersionedValue> = ByteMap::new();
        assert(version_map(visible@) =~= Map::<Seq<u8>, VersionModel>::empty());
        let pairs = self.committer.memtable().scan_range_versions(
            lower,
            upper,
            Snapshot::new(snapshot_ts),
        );
        merge_pairs(&mut visible, pairs);
        let ghost mem = range_scan(self@.write.chains, lower@, upper@, snapshot_ts);
        match self.tables.merge_range(&mut visible, lower, upper, snapshot_ts) {
            Ok(()) => {},
            Err(e) => {
                return Err(e);
            },
        }
        let out = live_entries(&visible);
        proof {
            let m = self@.tables;
            let keep = in_scan(m, lower@, upper@, snapshot_ts);
            let ids = choose|ids: Seq<u64>| #[trigger]
                is_listing(ids, m.version) && version_map(visible@) == newest_of_all(
                    newest_of_all(Map::empty(), mem),
                    offered_by(m, searched(m, ids, lower@, upper@), keep),
                );
            lemma_newest_concat(
                Map::empty(),
                mem,
                offered_by(m, searched(m, ids, lower@, upper@), keep),
            );
            assert(version_map(visible@) == range_contents(
                self@,
                ids,
                lower@,
                upper@,
                snapshot_ts,
            ));
        }
        Ok(out)
    }

    /// Returns the newest version of every key that is visible at a snapshot,
    /// in key order; a deleted key comes without a value.
    pub fn scan_all(&self, snapshot_ts: u64) -> (r: Result<Vec<(Bytes, Option<Bytes>)>>)
        requires
            self.wf(),
        ensures
            self@.tables.has_no_files() ==> r is Ok,
            r is Err ==> self.files().files_may_fail(),
            r matches Ok(out) ==> is_whole(opt_pair_models(out@), self@, snapshot_ts),
    {
        let mut visible: ByteMap<VersionedValue> = ByteMap::new();
        assert(version_map(visible@) =~= Map::<Seq<u8>, VersionModel>::empty());
        let rows = self.committer.memtable().all_versions();
        merge_visible(&mut visible, rows, Snapshot::new(snapshot_ts));
        let ghost mem = offered(table_rows(self@.write.chains), shown_at(snapshot_ts));
        match self.tables.merge_all(&mut visible, snapshot_ts) {
            Ok(()) => {},
            Err(e) => {
                return Err(e);
            },
        }
        let out = all_entries(&visible);
        proof {
            let m = self@.tables;
            let ids = choose|ids: Seq<u64>| #[trigger]
                is_listing(ids, m.version) && version_map(visible@) == newest_of_all(
                    newest_of_all(Map::empty(), mem),
                    offered_by(m, ids, in_snapshot(m, snapshot_ts)),
                );
            lemma_newest_concat(
                Map::empty(),
                mem,
                offered_by(m, ids, in_snapshot(m, snapshot_ts)),
            );
            assert(version_map(visible@) == all_contents(self@, ids, snapshot_ts));
        }
        Ok(out)
    }

    /// Drops a table: its keys leave the memtable, and what files hold of it
    /// is hidden from reads. Returns how many keys left the memtable.
    pub fn drop_table_prefix(&mut self, table: &str) -> (r: Result<usize>)
        requires
            old(self).wf(),
        ensures
            final(self).wf(),
            final(self).same_setup(old(self)),
            final(self)@.pins == old(self)@.pins,
            old(self).sound() ==> final(self).sound(),
            old(self).clean_ahead() ==> final(self).clean_ahead(),
            old(self).files().recording(mark_edits(table_prefix_of(table@), true), r is Ok),
            ({
                let prefix = table_prefix_of(table@);
                let gone = keys_with(old(self)@.write.chains.dom(), prefix);
                &&& r matches Ok(n) ==> {
                    &&& n == sorted_keys(gone).len()
                    &&& final(self)@ == (EngineModel {
                        write: WriteModel {
                            chains: old(self)@.write.chains.remove_keys(gone),
                            ..old(self)@.write
                        },
                        tables: with_mark(old(self)@.tables, prefix, true),
                        ..old(self)@
                    })
                }
                &&& r is Err ==> final(self)@ == old(self)@ || final(self)@ == (EngineModel {
                    tables: with_mark(old(self)@.tables, prefix, true),
                    ..old(self)@
                })
            }),
    {
        let prefix = table_prefix(table);
        match self.tables.mark_prefix(table_prefix(table), true) {
            Ok(()) => {},
            Err(e) => {
                return Err(e);
            },
        }
        Ok(self.committer.erase_prefix(prefix.as_slice()))
    }

    /// Clears the mark of a dropped table, so that a table created again under
    /// its name is visible.
    pub fn undrop_table_prefix(&mut self, table: &str) -> (r: Result<()>)
        requires
            old(self).wf(),
        ensures
            final(self).wf(),
            final(self).same_setup(old(self)),
            final(self)@.write == old(self)@.write,
            final(self)@.pins == old(self)@.pins,
            old(self).sound() ==> final(self).sound(),
            old(self).clean_ahead() ==> final(self).clean_ahead(),
            old(self).files().recording(mark_edits(table_prefix_of(table@), false), r is Ok),
            ({
                let prefix = table_prefix_of(table@);
                &&& r is Ok ==> final(self)@.tables == with_mark(old(self)@.tables, prefix, false)
                &&& r is Err ==> final(self)@.tables == old(self)@.tables || final(self)@.tables
                    == with_mark(old(self)@.tables, prefix, false)
            }),
    {
        self.tables.mark_prefix(table_prefix(table), false)
    }

    /// Scans every visible row of a table at the latest commit.
    pub fn scan_table(
        &self,
        table: &str,
        projection: Option<&[usize]>,
        fallback_schema: Option<&Schema>,
    ) -> (r: Result<Vec<ColumnBatch>>)
        requires
            self.wf(),
        ensures
            match schema_for(self@.tables, table@, schema_view(fallback_schema)) {
                None => r matches Err(e) && e.is_message(unknown_table_text(table@)),
                Some(fields) => {
                    let p = projection_view(projection);
                    &&& !fits_schema(p, fields.len()) ==> (r matches Err(e) && e.is_message(
                        projection_text(max_index(p->0) as nat, fields.len()),
                    ))
                    &&& self@.tables.has_no_files() && fits_schema(p, fields.len()) ==> (r is Ok
                        <==> young_fits(
                        self@.tables,
                        self@.write.chains,
                        table@,
                        snapshot_of(self@.write),
                        fields,
                        p,
                        usize::MAX as nat,
                    ))
                    &&& fits_schema(p, fields.len()) ==> (r matches Err(e) ==> scan_fault(
                        e,
                        self.files(),
                        self@,
                        table@,
                        fields,
                        p,
                    ))
                    &&& r matches Ok(bs) ==> forall|i: int|
                        0 <= i < bs@.len() ==> (#[trigger] bs@[i]).wf()
                    &&& r matches Ok(bs) ==> is_table_scan(
                        bs@,
                        self@.tables,
                        self@.write.chains,
                        table@,
                        fields,
                        p,
                        snapshot_of(self@.write),
                    )
                },
            },
    {
        scan_table(
            &self.tables,
            self.committer.memtable(),
            table,
            projection,
            fallback_schema,
            self.committer.snapshot_ts(),
        )
    }

    /// Scans a table at the latest commit as partitions: memtable and first
    /// level merged, then one partition for each deeper file.
    pub fn scan_table_arrow(
        &self,
        table: &str,
        projection: Option<&[usize]>,
        fallback_schema: Option<&Schema>,
        batch_size: usize,
        predicates: Option<&[ColumnPredicate]>,
    ) -> (r: Result<Vec<Vec<ColumnBatch>>>)
        requires
            self.wf(),
        ensures
            match schema_for(self@.tables, table@, schema_view(fallback_schema)) {
                None => r matches Err(e) && e.is_message(unknown_table_text(table@)),
                Some(fields) => {
                    let p = projection_view(projection);
                    &&& !fits_schema(p, fields.len()) ==> (r matches Err(e) && e.is_message(
                        projection_text(max_index(p->0) as nat, fields.len()),
                    ))
                    &&& self@.tables.has_no_files() && fits_schema(p, fields.len()) ==> (r is Ok
                        <==> young_fits(
                        self@.tables,
                        self@.write.chains,
                        table@,
                        snapshot_of(self@.write),
                        fields,
                        p,
                        batch_size as nat,
                    ))
                    &&& fits_schema(p, fields.len()) ==> (r matches Err(e) ==> partition_fault(
                        e,
                        &self.files(),
                        self@.write.chains,
                        table@,
                        fields,
                        p,
                        opt_models(predicates),
                        snapshot_of(self@.write),
                        batch_size,
                    ))
                    &&& r matches Ok(parts) ==> is_partitioned(
                        parts@,
                        self@.tables,
                        self@.write.chains,
                        table@,
                        fields,
                        p,
                        opt_models(predicates),
                        snapshot_of(self@.write),
                        batch_size,
                    )
                },
            },
    {
        scan_table_arrow(
            &self.tables,
            self.committer.memtable(),
            table,
            projection,
            fallback_schema,
            batch_size,
            predicates,
            self.committer.snapshot_ts(),
        )
    }
}

/// Why a scan of a table at the latest commit may fail: a file cannot be read,
/// or what is shown cannot be put into batches, for the reason `e`.
pub open spec fn scan_fault<F: FileIO, S: SstFormat>(
    e: EngineError,
    files: Tables<F, S>,
    m: EngineModel,
    table: Seq<char>,
    fields: Seq<FieldModel>,
    projection: Option<Seq<usize>>,
) -> bool {
    let prefix = table_prefix_of(table);
    let ts = snapshot_of(m.write);
    ||| files.range_may_fail(prefix, prefix_upper(prefix), ts)
    ||| is_table_fault(e, m.tables, m.write.chains, table, fields, projection, ts)
}

/// The files with a table marked as dropped, or not.
pub open spec fn with_mark(m: TablesModel, prefix: Seq<u8>, dropped: bool) -> TablesModel {
    TablesModel {
        version: VersionSetModel {
            dropped: if dropped {
                m.version.dropped.insert(prefix)
            } else {
                m.version.dropped.remove(prefix)
            },
            ..m.version
        },
        ..m
    }
}

/// What a range scan returns.
pub open spec fn is_range(
    out: Seq<(Seq<u8>, Seq<u8>)>,
    m: EngineModel,
    lower: Seq<u8>,
    upper: Seq<u8>,
    ts: u64,
) -> bool {
    exists|ids: Seq<u64>| #[trigger]
        is_listing(ids, m.tables.version) && out == live_pairs(
            entries(range_contents(m, ids, lower, upper, ts)),
        )
}

/// What a scan of everything returns.
pub open spec fn is_whole(
    out: Seq<(Seq<u8>, Option<Seq<u8>>)>,
    m: EngineModel,
    ts: u64,
) -> bool {
    exists|ids: Seq<u64>| #[trigger]
        is_listing(ids, m.tables.version) && out == entries(all_contents(m, ids, ts)).map_values(
            |e: (Seq<u8>, VersionModel)| (e.0, e.1.value),
        )
}

/// What running a compaction job did to the files: a job above the size of one
/// part is run by parts.
pub open spec fn job_outcome<F: FileIO, S: SstFormat>(
    before: Tables<F, S>,
    after: Tables<F, S>,
    job: CompactionJob,
    watermark: u64,
    at: u64,
    done: Result<bool>,
) -> bool {
    if job.estimated_bytes > SUB_COMPACTION_MAX_BYTES {
        exists|r: Result<Option<Vec<SstHandle>>>| #[trigger]
            sub_compact_outcome(
                before,
                after,
                job.source_level,
                job.target_level,
                watermark,
                at,
                r,
            ) && match r {
                Ok(hs) => done == Ok::<bool, EngineError>(hs is Some),
                Err(e) => done == Err::<bool, EngineError>(e),
            }
    } else {
        exists|r: Result<Option<SstHandle>>| #[trigger]
            compact_outcome(
                before,
                after,
                job.source_level,
                job.target_level,
                watermark,
                at,
                r,
            ) && match r {
                Ok(h) => done == Ok::<bool, EngineError>(h is Some),
                Err(e) => done == Err::<bool, EngineError>(e),
            }
    }
}

/// The key columns of each table.
pub open spec fn column_lists(m: Map<Seq<char>, Vec<(usize, String)>>) -> Map<
    Seq<char>,
    Seq<(usize, String)>,
> {
    m.map_values(|v: Vec<(usize, String)>| v@)
}

/// The key columns that an ingest goes by: those known of the table or, where
/// none are, those that the first batch gives the names.
pub open spec fn is_ingest_key(
    cols: Seq<(usize, String)>,
    known: Map<Seq<char>, Seq<(usize, String)>>,
    table: Seq<char>,
    batches: Seq<ColumnBatch>,
    names: Seq<String>,
) -> bool {
    if known.contains_key(table) {
        cols == known[table]
    } else {
        batches.len() > 0 && are_key_columns(cols, batches[0].schema@, names)
    }
}

/// Every batch with rows has the key columns.
pub open spec fn cover_key(batches: Seq<ColumnBatch>, cols: Seq<(usize, String)>) -> bool {
    forall|b: int, i: int|
        #![trigger batches[b], cols[i]]
        0 <= b < batches.len() && batches[b].num_rows > 0 && 0 <= i < cols.len() ==> cols[i].0
            < batches[b].schema@.len()
}

/// What ingesting rows by these key columns returns.
pub open spec fn is_ingested<K: PkCodec>(
    r: Result<Vec<Mutation>>,
    codec: K,
    table: Seq<char>,
    cols: Seq<(usize, String)>,
    rows: Seq<Seq<ScalarModel>>,
) -> bool {
    &&& r is Ok <==> all_rows_fit(codec, cols, rows)
    &&& r matches Ok(ms) ==> mutation_models(ms@) == puts_of(stored_rows(codec, table, cols, rows))
    &&& r matches Err(e) ==> is_first_row_error(e, codec, table, cols, rows)
}

fn resolve_pk_cached(
    cache: &mut NameMap<Vec<(usize, String)>>,
    table: &str,
    primary_key: &[String],
    first_batch: Option<&ColumnBatch>,
) -> (r: Result<()>)
    requires
        old(cache).wf(),
    ensures
        final(cache).wf(),
        ({
            let known = column_lists(old(cache)@);
            let after = column_lists(final(cache)@);
            if known.contains_key(table@) {
                r is Ok && after == known
            } else {
                match first_batch {
                    None => after == known && (r matches Err(e) && e.is_corrupt(
                        "ingest_batches: no batches",
                    )),
                    Some(b) => if forall|k: int|
                        0 <= k < primary_key@.len() ==> has_named(
                            b.schema@,
                            (#[trigger] primary_key@[k])@,
                        ) {
                        r is Ok && exists|cols: Seq<(usize, String)>| #[trigger]
                            are_key_columns(cols, b.schema@, primary_key@) && after == known.insert(
                                table@,
                                cols,
                            )
                    } else {
                        after == known && (r matches Err(e) && e.is_corrupt(
                            "resolve_pk_columns: primary key column not present in input batch",
                        ))
                    },
                }
            }
        }),
{
    if cache.contains(table) {
        return Ok(());
    }
    let batch = match first_batch {
        Some(b) => b,
        None => {
            return Err(EngineError::Corrupt("ingest_batches: no batches"));
        },
    };
    let columns = match resolve_pk_columns(batch, primary_key) {
        Ok(cols) => cols,
        Err(e) => {
            return Err(e);
        },
    };
    let ghost known = cache@;
    let ghost cols = columns@;
    cache.insert(table, columns);
    proof {
        assert(column_lists(cache@) =~= column_lists(known).insert(table@, cols));
        assert(are_key_columns(cols, batch.schema@, primary_key@));
    }
    Ok(())
}

/// The message for a table without a registered schema.
pub open spec fn no_delete_schema_text(table: Seq<char>) -> Seq<char> {
    "delete_with_column_predicates: no schema registered for table `"@ + table + "`"@
}

/// What deleting one key by its primary key returns, where `found` is the
/// newest version of it.
pub open spec fn deletes_key(found: Option<VersionModel>, key: Seq<u8>, r: Result<Vec<Mutation>>) -> bool {
    if value_of(found) is Some {
        r matches Ok(ms) && mutation_models(ms@) == deletes_of(seq![key])
    } else {
        r == Err::<Vec<Mutation>, EngineError>(EngineError::EmptyBatch)
    }
}

/// What deleting the matching rows of a table returns, where `bs` are its
/// rows.
pub open spec fn deletes_matching<K: PkCodec>(
    codec: K,
    table: Seq<char>,
    bs: Seq<ColumnBatch>,
    cols: Seq<(usize, String)>,
    ps: Seq<PredicateModel>,
    r: Result<Vec<Mutation>>,
) -> bool {
    let rows = rows_of_batches(bs);
    let keys = matching_keys(codec, table, cols, rows, ps);
    if !all_keyed(codec, cols, rows, ps) {
        r matches Err(e) && is_first_key_error(e, codec, table, cols, rows, ps)
    } else if keys.len() == 0 {
        r == Err::<Vec<Mutation>, EngineError>(EngineError::EmptyBatch)
    } else {
        r matches Ok(ms) && mutation_models(ms@) == deletes_of(keys)
    }
}

/// What deleting the matching rows of a registered table returns where its
/// rows at the latest commit can be read.
pub open spec fn deletes_scanned<K: PkCodec>(
    codec: K,
    m: EngineModel,
    table: Seq<char>,
    primary_key: Seq<String>,
    ps: Seq<PredicateModel>,
    r: Result<Vec<Mutation>>,
) -> bool {
    let fields = m.tables.schemas[table];
    exists|bs: Seq<ColumnBatch>, cols: Seq<(usize, String)>|
        is_table_scan(
            bs,
            m.tables,
            m.write.chains,
            table,
            fields,
            None,
            snapshot_of(m.write),
        ) && are_key_columns(cols, fields, primary_key) && #[trigger] deletes_matching(
            codec,
            table,
            bs,
            cols,
            ps,
            r,
        )
}

impl<F: FileIO, S: SstFormat, H: EngineHook, P: CompactionPicker, C: Clock> Engine<F, S, H, P, C> {
    /// Returns the bytes on disk of all files, as recorded in the manifest.
    pub fn total_sst_bytes(&self) -> (r: u64)
        requires
            self.wf(),
        ensures
            is_byte_total(r, self@.tables),
    {
        total_sst_bytes(&self.tables)
    }

    /// Returns the zone maps of the files whose key range speaks for a table.
    pub fn table_zone_maps(&self, table: &str, row_schema: Option<&Schema>) -> (r: Vec<
        (u64, ZoneMap),
    >)
        requires
            self.wf(),
        ensures
            are_table_zones(r@, self.files(), table@, schema_view(row_schema)),
    {
        table_zone_maps(&self.tables, table, row_schema)
    }

    /// Collects what a compaction picker is told of the files.
    pub fn compaction_files(&self) -> (r: Vec<FileMeta>)
        requires
            self.wf(),
        ensures
            are_file_models(file_models(r@), self.files()),
    {
        compaction_files(&self.tables)
    }

    /// Runs a compaction job and returns whether files changed.
    pub fn run_job(&mut self, job: &CompactionJob) -> (r: Result<bool>)
        requires
            old(self).wf(),
        ensures
            final(self).wf(),
            final(self).same_setup(old(self)),
            final(self).spec_picker() == old(self).spec_picker(),
            final(self)@.pins == old(self)@.pins,
            final(self)@.write == compaction_counted(
                old(self)@.write,
                r == Ok::<bool, EngineError>(true),
            ),
            exists|watermark: u64, at: u64|
                is_watermark(watermark, old(self)@.pins, snapshot_of(old(self)@.write)) && may_show(
                    old(self).spec_clock(),
                    at,
                ) && #[trigger] job_outcome(
                    old(self).files(),
                    final(self).files(),
                    *job,
                    watermark,
                    at,
                    r,
                ),
    {
        let watermark: u64 = self.watermark();
        if job.estimated_bytes > SUB_COMPACTION_MAX_BYTES {
            let made = self.sub_compact(job.source_level, job.target_level, watermark);
            let ghost at = choose|at: u64|
                may_show(old(self).spec_clock(), at) && #[trigger] sub_compact_outcome(
                    old(self).files(),
                    self.files(),
                    job.source_level,
                    job.target_level,
                    watermark,
                    at,
                    made,
                );
            let ghost outcome = made;
            let done = match made {
                Ok(hs) => Ok(hs.is_some()),
                Err(e) => Err(e),
            };
            proof {
                assert(sub_compact_outcome(
                    old(self).files(),
                    self.files(),
                    job.source_level,
                    job.target_level,
                    watermark,
                    at,
                    outcome,
                ));
                assert(job_outcome(
                    old(self).files(),
                    self.files(),
                    *job,
                    watermark,
                    at,
                    done,
                ));
            }
            done
        } else {
            let made = self.compact_with_watermark(job.source_level, job.target_level, watermark);
            let ghost at = choose|at: u64|
                may_show(old(self).spec_clock(), at) && #[trigger] compact_outcome(
                    old(self).files(),
                    self.files(),
                    job.source_level,
                    job.target_level,
                    watermark,
                    at,
                    made,
                );
            let ghost outcome = made;
            let done = match made {
                Ok(h) => Ok(h.is_some()),
                Err(e) => Err(e),
            };
            proof {
                assert(compact_outcome(
                    old(self).files(),
                    self.files(),
                    job.source_level,
                    job.target_level,
                    watermark,
                    at,
                    outcome,
                ));
                assert(job_outcome(
                    old(self).files(),
                    self.files(),
                    *job,
                    watermark,
                    at,
                    done,
                ));
            }
            done
        }
    }

    /// One pass of the background worker: the picker chooses a job from what
    /// is known of the files, and the job is run. Without a job nothing
    /// happens.
    pub fn run_compaction_iteration(&mut self) -> (r: Option<Result<bool>>)
        requires
            old(self).wf(),
        ensures
            final(self).wf(),
            final(self).same_setup(old(self)),
            final(self)@.pins == old(self)@.pins,
            final(self).spec_picker() == old(self).spec_picker(),
            match r {
                None => {
                    &&& final(self)@ == old(self)@
                    &&& final(self).files() == old(self).files()
                    &&& exists|files: Seq<FileMeta>|
                        are_file_models(file_models(files), old(self).files())
                            && #[trigger] may_pick(old(self).spec_picker(), files, None)
                },
                Some(done) => {
                    &&& final(self)@.write == compaction_counted(
                        old(self)@.write,
                        done == Ok::<bool, EngineError>(true),
                    )
                    &&& exists|files: Seq<FileMeta>, job: CompactionJob, watermark: u64, at: u64|
                        are_file_models(file_models(files), old(self).files())
                            && #[trigger] may_pick(old(self).spec_picker(), files, Some(job))
                            && is_watermark(
                            watermark,
                            old(self)@.pins,
                            snapshot_of(old(self)@.write),
                        ) && may_show(old(self).spec_clock(), at) && #[trigger] job_outcome(
                            old(self).files(),
                            final(self).files(),
                            job,
                            watermark,
                            at,
                            done,
                        )
                },
            },
    {
        let files = self.compaction_files();
        let choice = self.picker.pick(files.as_slice());
        assert(may_pick(old(self).spec_picker(), files@, choice));
        match choice {
            Some(job) => {
                let done = self.run_job(&job);
                proof {
                    let (watermark, at) = choose|watermark: u64, at: u64|
                        is_watermark(watermark, old(self)@.pins, snapshot_of(old(self)@.write))
                            && may_show(old(self).spec_clock(), at) && #[trigger] job_outcome(
                            old(self).files(),
                            self.files(),
                            job,
                            watermark,
                            at,
                            done,
                        );
                    assert(job_outcome(
                        old(self).files(),
                        self.files(),
                        job,
                        watermark,
                        at,
                        done,
                    ));
                }
                Some(done)
            },
            None => None,
        }
    }

    /// Collects garbage in the background: what is dropped is counted.
    pub fn background_gc(&mut self) -> (r: usize)
        requires
            old(self).wf(),
        ensures
            final(self).wf(),
            final(self).same_setup(old(self)),
            final(self).files() == old(self).files(),
            final(self)@.tables == old(self)@.tables,
            final(self)@.pins == old(self)@.pins,
            exists|watermark: u64| #[trigger]
                is_watermark(watermark, old(self)@.pins, snapshot_of(old(self)@.write)) && {
                    &&& r == gc_dropped(
                        sorted_keys(old(self)@.write.chains.dom()),
                        old(self)@.write.chains,
                        watermark,
                    )
                    &&& final(self)@.write == (WriteModel {
                        chains: chains_gc(old(self)@.write.chains, watermark),
                        metrics: EngineMetrics {
                            gc_versions_dropped: if r > 0 {
                                wrapped(old(self)@.write.metrics.gc_versions_dropped, r as u64)
                            } else {
                                old(self)@.write.metrics.gc_versions_dropped
                            },
                            ..old(self)@.write.metrics
                        },
                        ..old(self)@.write
                    })
                },
    {
        let dropped: usize = self.garbage_collect();
        let ghost watermark = choose|watermark: u64| #[trigger]
            is_watermark(watermark, old(self)@.pins, snapshot_of(old(self)@.write)) && {
                &&& self@.write == (WriteModel {
                    chains: chains_gc(old(self)@.write.chains, watermark),
                    ..old(self)@.write
                })
                &&& dropped == gc_dropped(
                    sorted_keys(old(self)@.write.chains.dom()),
                    old(self)@.write.chains,
                    watermark,
                )
            };
        if dropped > 0 {
            self.committer.record_gc_versions_dropped(dropped as u64);
        }
        assert(is_watermark(watermark, old(self)@.pins, snapshot_of(old(self)@.write)));
        dropped
    }

    /// Shows the counters to the compaction picker, which may adapt to them.
    pub fn observe_workload(&mut self)
        requires
            old(self).wf(),
        ensures
            final(self).wf(),
            final(self).same_setup(old(self)),
            final(self).files() == old(self).files(),
            final(self)@ == old(self)@,
            exists|p: &mut P, s: &MetricsSnapshot|
                *p == old(self).spec_picker() && *final(p) == final(self).spec_picker() && *s == old(
                    self,
                )@.write.metrics.shown() && #[trigger] call_ensures(
                    P::update_from_workload,
                    (p, s),
                    (),
                ),
    {
        let snapshot = self.committer.metrics().snapshot();
        self.picker.update_from_workload(&snapshot);
    }

    /// Counts a pass of the background worker that panicked.
    pub fn record_compaction_panic(&mut self)
        requires
            old(self).wf(),
        ensures
            final(self).wf(),
            final(self).same_setup(old(self)),
            final(self).files() == old(self).files(),
            final(self)@ == (EngineModel {
                write: WriteModel {
                    metrics: EngineMetrics {
                        compaction_panics: wrapped(old(self)@.write.metrics.compaction_panics, 1),
                        ..old(self)@.write.metrics
                    },
                    ..old(self)@.write
                },
                ..old(self)@
            }),
    {
        self.committer.record_compaction_panic();
    }

    /// Milliseconds between two collections of garbage.
    pub fn gc_interval(&self) -> (r: u64)
        ensures
            r == self.settings().gc_interval,
    {
        self.settings.gc_interval
    }

    /// Turns rows into puts and registers the schema of the first batch for
    /// the table. The key columns are found in the first batch that is ever
    /// ingested for the table, and stay those. Nothing is written: the puts are
    /// the caller's to commit.
    pub fn ingest_batches<K: PkCodec>(
        &mut self,
        codec: &K,
        batches: &[ColumnBatch],
        table: &str,
        primary_key: &[String],
    ) -> (r: Result<Vec<Mutation>>)
        requires
            old(self).wf(),
            forall|b: int| 0 <= b < batches@.len() ==> (#[trigger] batches@[b]).wf(),
            primary_key@.len() > 0 ==> forall|cols: Seq<(usize, String)>| #[trigger]
                is_ingest_key(
                    cols,
                    old(self).known_keys(),
                    table@,
                    batches@,
                    primary_key@,
                ) ==> cover_key(batches@, cols),
        ensures
            final(self).wf(),
            final(self).same_parts(old(self)),
            old(self).sound() ==> final(self).sound(),
            old(self).clean_ahead() ==> final(self).clean_ahead(),
            final(self)@ == (if primary_key@.len() == 0 || batches@.len() == 0 {
                old(self)@
            } else {
                EngineModel {
                    tables: TablesModel {
                        schemas: old(self)@.tables.schemas.insert(table@, batches@[0].schema@),
                        ..old(self)@.tables
                    },
                    ..old(self)@
                }
            }),
            old(self).known_keys().submap_of(final(self).known_keys()),
            ({
                let known = old(self).known_keys();
                let after = final(self).known_keys();
                let rows = rows_of_batches(batches@);
                if primary_key@.len() == 0 {
                    &&& after == known
                    &&& r matches Err(e) && e.is_corrupt(
                        "ingest_batches requires a table with a primary key; the legacy row-index fallback encoding was removed",
                    )
                } else if known.contains_key(table@) {
                    &&& after == known
                    &&& is_ingested(r, *codec, table@, known[table@], rows)
                } else if batches@.len() == 0 {
                    &&& after == known
                    &&& r matches Err(e) && e.is_corrupt("ingest_batches: no batches")
                } else if forall|k: int|
                    0 <= k < primary_key@.len() ==> has_named(
                        batches@[0].schema@,
                        (#[trigger] primary_key@[k])@,
                    ) {
                    exists|cols: Seq<(usize, String)>| #[trigger]
                        are_key_columns(cols, batches@[0].schema@, primary_key@) && {
                            &&& after == known.insert(table@, cols)
                            &&& is_ingested(r, *codec, table@, cols, rows)
                        }
                } else {
                    &&& after == known
                    &&& r matches Err(e) && e.is_corrupt(
                        "resolve_pk_columns: primary key column not present in input batch",
                    )
                }
            }),
    {
        if primary_key.len() == 0 {
            return Err(
                EngineError::Corrupt(
                    "ingest_batches requires a table with a primary key; the legacy row-index fallback encoding was removed",
                ),
            );
        }
        let first = if batches.len() > 0 {
            self.tables.register_schema(table, batches[0].schema.clone());
            Some(&batches[0])
        } else {
            None
        };
        match resolve_pk_cached(&mut self.key_columns, table, primary_key, first) {
            Ok(()) => {},
            Err(e) => {
                return Err(e);
            },
        }
        match self.key_columns.get(table) {
            Some(columns) => {
                assert(columns@ == self.known_keys()[table@]);
                assert(is_ingest_key(
                    columns@,
                    old(self).known_keys(),
                    table@,
                    batches@,
                    primary_key@,
                ));
                puts_for_rows(codec, table, batches, columns.as_slice())
            },
            None => Err(EngineError::Corrupt("ingest_batches: no batches")),
        }
    }

    /// Returns the key columns that a table was first ingested with: the place
    /// and the name of each.
    pub fn key_columns(&self, table: &str) -> (r: Option<&Vec<(usize, String)>>)
        requires
            self.wf(),
        ensures
            r is Some <==> self.known_keys().contains_key(table@),
            r matches Some(columns) ==> columns@ == self.known_keys()[table@],
    {
        self.key_columns.get(table)
    }

    /// Turns the rows of a table that satisfy every predicate into deletes.
    /// Predicates that fix the primary key look up the one row it names;
    /// others scan the table at the latest commit. No such row is an error.
    pub fn delete_with_column_predicates<K: PkCodec>(
        &mut self,
        codec: &K,
        table: &str,
        primary_key: &[String],
        predicates: &[ColumnPredicate],
    ) -> (r: Result<Vec<Mutation>>)
        requires
            old(self).wf(),
        ensures
            final(self).wf(),
            final(self).same_setup(old(self)),
            final(self)@ == old(self)@,
            old(self).sound() ==> final(self).sound(),
            old(self).clean_ahead() ==> final(self).clean_ahead(),
            ({
                let m = old(self)@;
                let after = final(self).files();
                let ts = snapshot_of(m.write);
                let ps = predicate_models(predicates@);
                if primary_key@.len() == 0 {
                    r matches Err(e) && e.is_corrupt(
                        "delete_with_column_predicates requires a table with a primary key; the legacy row-index fallback encoding was removed",
                    )
                } else if predicates@.len() == 0 {
                    r matches Err(e) && e.is_corrupt(
                        "delete_with_column_predicates: no predicates; full-table DELETE is rejected; use `DELETE WHERE true` explicitly",
                    )
                } else if !m.tables.schemas.contains_key(table@) {
                    r matches Err(e) && e.is_message(no_delete_schema_text(table@))
                } else {
                    let fields = m.tables.schemas[table@];
                    if fixes_key(*codec, ps, primary_key@, fields) {
                        let key = table_key(
                            table@,
                            fixed_parts(*codec, ps, primary_key@, fields),
                        );
                        match chains_read(m.write.chains, key, ts) {
                            Some(v) => deletes_key(Some(v), key, r),
                            None => {
                                &&& m.tables.no_file_covers(key) ==> deletes_key(None, key, r)
                                &&& r is Err && old(self).files().get_may_fail(key, ts) || exists|
                                    w: Option<VersionModel>,
                                | #[trigger]
                                    deletes_key(w, key, r) && (old(self).sound()
                                        ==> m.tables.newest(key, ts, w)) && exists|
                                        found: Option<VersionedValue>,
                                    |
                                        opt_version(found) == w && #[trigger] after.sought(
                                            &old(self).files(),
                                            key,
                                            ts,
                                            Ok(found),
                                        )
                            },
                        }
                    } else if exists|k: int|
                        0 <= k < primary_key@.len() && !has_named(
                            fields,
                            (#[trigger] primary_key@[k])@,
                        ) {
                        r matches Err(e) && e.is_corrupt(
                            "resolve_pk_columns_via_schema: primary key column not present in schema",
                        )
                    } else {
                        let done = deletes_scanned(*codec, m, table@, primary_key@, ps, r);
                        &&& m.tables.has_no_files() && young_fits(
                            m.tables,
                            m.write.chains,
                            table@,
                            ts,
                            fields,
                            None,
                            usize::MAX as nat,
                        ) ==> done
                        &&& (r matches Err(e) && scan_fault(
                            e,
                            old(self).files(),
                            m,
                            table@,
                            fields,
                            None,
                        )) || done
                    }
                }
            }),
    {
        if primary_key.len() == 0 {
            return Err(
                EngineError::Corrupt(
                    "delete_with_column_predicates requires a table with a primary key; the legacy row-index fallback encoding was removed",
                ),
            );
        }
        if predicates.len() == 0 {
            return Err(
                EngineError::Corrupt(
                    "delete_with_column_predicates: no predicates; full-table DELETE is rejected; use `DELETE WHERE true` explicitly",
                ),
            );
        }
        let schema = match self.tables.schema(table) {
            Some(s) => s.clone(),
            None => {
                let mut msg = String::new();
                msg.append("delete_with_column_predicates: no schema registered for table `");
                msg.append(table);
                msg.append("`");
                assert(msg@ =~= no_delete_schema_text(table@));
                return Err(EngineError::CorruptMessage(msg));
            },
        };
        let ts: u64 = self.committer.snapshot_ts();
        match try_extract_pk_eq_from_predicates(codec, predicates, primary_key, &schema) {
            Some(parts) => {
                let key = assemble_table_key(table, parts.as_slice());
                let found = match self.committer.memtable().get(
                    bytes_slice(&key),
                    Snapshot::new(ts),
                ) {
                    Some(v) => Some(v),
                    None => match self.tables.get_version(bytes_slice(&key), ts) {
                        Ok(v) => {
                            assert(self.files().sought(
                                &old(self).files(),
                                bytes_view(key),
                                ts,
                                Ok(v),
                            ));
                            v
                        },
                        Err(e) => {
                            return Err(e);
                        },
                    },
                };
                let ghost w = opt_version(found);
                let r = delete_for_key(found, key);
                assert(deletes_key(w, bytes_view(key), r));
                return r;
            },
            None => {},
        }
        let pk_columns = match resolve_pk_columns_via_schema(&schema, primary_key) {
            Ok(cols) => cols,
            Err(e) => {
                return Err(e);
            },
        };
        let batches = match self.scan_table(table, None, None) {
            Ok(bs) => bs,
            Err(e) => {
                return Err(e);
            },
        };
        let r = deletes_for_rows(
            codec,
            table,
            batches.as_slice(),
            pk_columns.as_slice(),
            predicates,
        );
        assert(deletes_matching(
            *codec,
            table@,
            batches@,
            pk_columns@,
            predicate_models(predicates@),
            r,
        ));
        r
    }
}

} // verus!
