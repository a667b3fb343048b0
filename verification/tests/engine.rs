use bytes::Bytes;
use hatp_engine::column_predicate::ColumnPredicate;
use hatp_engine::committer::PendingWrite;
use hatp_engine::compaction::{
    CompactionJob, CompactionKind, CompactionPicker, FileMeta, MinOverlappingRatioPicker,
};
use hatp_engine::file_io::{FileIO, FileName, Files};
use hatp_engine::config::SyncMode;
use hatp_engine::memtable::{MemTableImpl, VersionedRow};
use hatp_engine::metrics::MetricsSnapshot;
use hatp_engine::name_map::NameMap;
use hatp_engine::pk::OrderedPkCodec;
use hatp_engine::pressure::{PressureConfig, ThrottleLevel};
use hatp_engine::scalar::{DataType, ScalarValue};
use hatp_engine::schema::{ColumnBatch, Field, Schema};
use hatp_engine::sst_format::{MemoryFormat, SstFormat, SstHandle, StoredRows, ZoneMap};
use hatp_engine::{
    Engine, EngineConfig, EngineError, EngineHook, ManualClock, Mutation, NoopHook, Snapshot,
    VersionedValue,
};
use std::cell::RefCell;
use std::collections::BTreeMap;
use std::io::{Error, ErrorKind};
use std::rc::Rc;

/// Files in memory that outlive the handles on them.
#[derive(Clone, Default)]
struct Disk {
    files: Rc<RefCell<BTreeMap<String, Vec<u8>>>>,
    tables: Rc<RefCell<Option<MemoryFormat>>>,
    keeps_tables: bool,
    file_bytes: u64,
    broken: Rc<RefCell<Vec<&'static str>>>,
}

/// Fails where the named operation is broken.
fn works(broken: &Rc<RefCell<Vec<&'static str>>>, operation: &str) -> Result<(), Error> {
    if broken.borrow().iter().any(|b| *b == operation) {
        return Err(Error::new(ErrorKind::Other, "disk gone"));
    }
    Ok(())
}

struct Handle {
    disk: Disk,
    name: String,
}

impl Disk {
    fn handle(&self, name: &str) -> Handle {
        Handle { disk: self.clone(), name: name.to_string() }
    }

    fn bytes(&self, name: &str) -> Vec<u8> {
        self.files.borrow().get(name).cloned().unwrap_or_default()
    }

    fn set_broken(&self, operations: &[&'static str]) {
        *self.broken.borrow_mut() = operations.to_vec();
    }

    fn put(&self, name: &str, data: Vec<u8>) {
        self.files.borrow_mut().insert(name.to_string(), data);
    }

    fn format(&self) -> SharedFormat {
        if self.tables.borrow().is_none() {
            *self.tables.borrow_mut() = Some(MemoryFormat::new());
        }
        SharedFormat {
            tables: self.tables.clone(),
            keeps_tables: self.keeps_tables,
            file_bytes: self.file_bytes,
            broken: self.broken.clone(),
        }
    }
}

impl FileIO for Handle {
    fn files(&self) -> Files {
        unreachable!("stands in contracts only")
    }

    fn current(&self) -> FileName {
        unreachable!("stands in contracts only")
    }

    fn wf(&self) -> bool {
        unreachable!("stands in contracts only")
    }

    fn write_all(&mut self, buf: &[u8]) -> Result<(), Error> {
        works(&self.disk.broken, "append")?;
        let mut files = self.disk.files.borrow_mut();
        files.entry(self.name.clone()).or_default().extend_from_slice(buf);
        Ok(())
    }

    fn sync_data(&mut self) -> Result<(), Error> {
        works(&self.disk.broken, "sync")
    }

    fn set_len(&mut self, len: u64) -> Result<(), Error> {
        works(&self.disk.broken, "cut")?;
        let mut files = self.disk.files.borrow_mut();
        files.entry(self.name.clone()).or_default().truncate(len as usize);
        Ok(())
    }

    fn read_all(&mut self) -> Result<Vec<u8>, Error> {
        Ok(self.disk.bytes(&self.name))
    }

    fn write_atomic(&mut self, path: &str, data: &[u8]) -> Result<(), Error> {
        self.disk.put(path, data.to_vec());
        Ok(())
    }

    fn read_file(&mut self, path: &str) -> Result<Vec<u8>, Error> {
        match self.disk.files.borrow().get(path) {
            Some(data) => Ok(data.clone()),
            None => Err(Error::from(ErrorKind::NotFound)),
        }
    }

    fn remove_file(&mut self, path: &str) -> Result<(), Error> {
        self.disk.files.borrow_mut().remove(path);
        Ok(())
    }
}

/// Table files in memory that outlive the engine.
struct SharedFormat {
    tables: Rc<RefCell<Option<MemoryFormat>>>,
    keeps_tables: bool,
    file_bytes: u64,
    broken: Rc<RefCell<Vec<&'static str>>>,
}

impl SstFormat for SharedFormat {
    fn stored(&self) -> StoredRows {
        unreachable!("stands in contracts only")
    }

    fn wf(&self) -> bool {
        unreachable!("stands in contracts only")
    }

    fn write(
        &mut self,
        path: &str,
        rows: &[VersionedRow],
        file_id: u64,
        row_schema: Option<&Schema>,
    ) -> Result<SstHandle, EngineError> {
        works(&self.broken, "store").map_err(EngineError::Io)?;
        let mut tables = self.tables.borrow_mut();
        let mut handle = tables.as_mut().unwrap().write(path, rows, file_id, row_schema)?;
        handle.bytes = self.file_bytes;
        Ok(handle)
    }

    fn read_all(&self, path: &str) -> Result<Vec<VersionedRow>, EngineError> {
        self.tables.borrow().as_ref().unwrap().read_all(path)
    }

    fn get(
        &self,
        path: &str,
        key: &[u8],
        snapshot: Snapshot,
    ) -> Result<Option<VersionedValue>, EngineError> {
        self.tables.borrow().as_ref().unwrap().get(path, key, snapshot)
    }

    fn scan_with_filter(
        &self,
        path: &str,
        lower: &[u8],
        upper: &[u8],
        snapshot: Snapshot,
        projection: Option<&[usize]>,
        predicates: Option<&[(String, ColumnPredicate)]>,
        row_schema: Option<&Schema>,
    ) -> Result<Vec<VersionedRow>, EngineError> {
        let tables = self.tables.borrow();
        let format = tables.as_ref().unwrap();
        format.scan_with_filter(path, lower, upper, snapshot, projection, predicates, row_schema)
    }

    fn scan_columns(
        &self,
        path: &str,
        lower: &[u8],
        upper: &[u8],
        snapshot: Snapshot,
        predicates: &[ColumnPredicate],
        projection: Option<&[usize]>,
        row_schema: &Schema,
        batch_size: usize,
    ) -> Result<Vec<ColumnBatch>, EngineError> {
        let tables = self.tables.borrow();
        let format = tables.as_ref().unwrap();
        format.scan_columns(
            path, lower, upper, snapshot, predicates, projection, row_schema, batch_size,
        )
    }

    fn zone_map(&self, path: &str, row_schema: Option<&Schema>) -> Result<ZoneMap, EngineError> {
        let mut zone = self.tables.borrow().as_ref().unwrap().zone_map(path, row_schema)?;
        zone.total_bytes = self.file_bytes;
        if self.file_bytes > 0 {
            zone.column_min.insert("size", ScalarValue::UInt64(Some(self.file_bytes)));
            zone.column_null_count.insert("size", 7);
        }
        Ok(zone)
    }

    fn remove(&mut self, path: &str) -> Result<(), EngineError> {
        if self.keeps_tables {
            return Ok(());
        }
        self.tables.borrow_mut().as_mut().unwrap().remove(path)
    }
}

type Db<H = NoopHook> = Engine<Handle, SharedFormat, H, MinOverlappingRatioPicker, ManualClock>;

type Config = EngineConfig<ManualClock, MinOverlappingRatioPicker, SharedFormat>;

fn config(disk: &Disk) -> Config {
    EngineConfig::new("db").with_clock(ManualClock::new(1000)).with_sst_format(disk.format())
}

fn try_open(disk: &Disk, config: Config) -> Result<Db, EngineError> {
    Engine::open(
        config,
        disk.handle("db/hatp.wal"),
        disk.handle("db/MANIFEST"),
        disk.handle("db/unused"),
        NameMap::new(),
    )
}

fn open(disk: &Disk) -> Db {
    try_open(disk, config(disk)).expect("open")
}

fn put(key: &[u8], value: &[u8]) -> Mutation {
    Mutation::Put { key: Bytes::copy_from_slice(key), value: Bytes::copy_from_slice(value) }
}

fn delete(key: &[u8]) -> Mutation {
    Mutation::Delete { key: Bytes::copy_from_slice(key) }
}

fn read(db: &mut Db, key: &[u8]) -> Option<Vec<u8>> {
    let ts = db.snapshot_ts();
    db.get(key, ts).expect("get").map(|b| b.to_vec())
}

#[test]
fn a_write_is_read_back() {
    let disk = Disk::default();
    let mut db = open(&disk);
    assert_eq!(db.snapshot_ts(), 0);
    let first = db.write(&[put(b"k", b"1")]).unwrap();
    let second = db.write(&[put(b"k", b"2"), put(b"l", b"x")]).unwrap();
    assert_eq!((first, second), (1, 2));
    assert_eq!(read(&mut db, b"k"), Some(b"2".to_vec()));
    assert_eq!(db.get(b"k", first).unwrap().unwrap().as_ref(), b"1");
    assert!(db.get(b"k", 0).unwrap().is_none());
    db.write(&[delete(b"k")]).unwrap();
    assert_eq!(read(&mut db, b"k"), None);
    assert_eq!(db.get(b"k", second).unwrap().unwrap().as_ref(), b"2");
    assert_eq!(db.path(), "db");
}

#[test]
fn empty_batches_and_the_sentinel_are_refused() {
    let disk = Disk::default();
    let mut db = open(&disk);
    assert!(matches!(db.write(&[]), Err(EngineError::EmptyBatch)));
    assert!(matches!(db.write_with_tx(0, &[put(b"k", b"v")]), Err(EngineError::Corrupt(_))));
    assert_eq!(db.snapshot_ts(), 0);
}

#[test]
fn reserving_an_id_does_not_move_the_snapshot() {
    let disk = Disk::default();
    let mut db = open(&disk);
    let a = db.reserve_tx_id();
    let b = db.reserve_tx_id();
    assert!(a > 0 && b > a);
    assert_eq!(db.snapshot_ts(), 0);
    assert_eq!(db.write_with_tx(b, &[put(b"k", b"v")]).unwrap(), 1);
    assert!(db.reserve_tx_id() > b);
}

#[test]
fn a_flush_changes_no_read() {
    let disk = Disk::default();
    let mut db = open(&disk);
    assert!(db.flush().unwrap().is_none());
    db.write(&[put(b"a", b"1"), put(b"b", b"1")]).unwrap();
    db.write(&[put(b"a", b"2"), delete(b"b")]).unwrap();
    let handle = db.flush().unwrap().expect("a file");
    assert_eq!(handle.rows, 4);
    assert_eq!(handle.min_key.as_ref(), b"a");
    assert_eq!(handle.max_key.as_ref(), b"b");
    assert_eq!(db.sst_file_ids(), vec![handle.file_id]);
    assert!(db.memtable().is_empty());
    assert_eq!(read(&mut db, b"a"), Some(b"2".to_vec()));
    assert_eq!(read(&mut db, b"b"), None);
    assert_eq!(db.get(b"a", 1).unwrap().unwrap().as_ref(), b"1");
    assert_eq!(db.get(b"b", 1).unwrap().unwrap().as_ref(), b"1");
    let stats = db.scan_stats().unwrap();
    assert_eq!((stats.memtable_rows, stats.sst_rows), (0, 4));
    assert_eq!(db.total_sst_bytes(), handle.bytes);
    assert_eq!(db.metrics().snapshot().flush_count, 1);
    assert_eq!(db.stats_version(), 2);
}

#[test]
fn a_reopened_engine_has_every_commit() {
    let disk = Disk::default();
    {
        let mut db = open(&disk);
        db.write(&[put(b"a", b"1")]).unwrap();
        db.write(&[put(b"b", b"1")]).unwrap();
        db.flush().unwrap();
        db.write(&[put(b"a", b"2"), delete(b"b"), put(b"c", b"3")]).unwrap();
    }
    let mut db = open(&disk);
    assert_eq!(read(&mut db, b"a"), Some(b"2".to_vec()));
    assert_eq!(read(&mut db, b"b"), None);
    assert_eq!(read(&mut db, b"c"), Some(b"3".to_vec()));
    let before = db.snapshot_ts();
    let next = db.write(&[put(b"d", b"4")]).unwrap();
    assert_eq!(next, before + 1);
    assert!(db.reserve_tx_id() > 3);
}

#[test]
fn a_torn_commit_is_forgotten() {
    let disk = Disk::default();
    {
        let mut db = open(&disk);
        db.write(&[put(b"a", b"1")]).unwrap();
        db.write(&[put(b"a", b"2")]).unwrap();
    }
    let mut log = disk.bytes("db/hatp.wal");
    log.pop();
    disk.put("db/hatp.wal", log);
    let mut db = open(&disk);
    assert_eq!(read(&mut db, b"a"), Some(b"1".to_vec()));
    db.write(&[put(b"a", b"3")]).unwrap();
    drop(db);
    let mut db = open(&disk);
    assert_eq!(read(&mut db, b"a"), Some(b"3".to_vec()));
}

#[test]
fn a_log_of_another_format_stops_the_opening() {
    let disk = Disk::default();
    disk.put("db/hatp.wal", b"ARROW1 something".to_vec());
    assert!(matches!(try_open(&disk, config(&disk)), Err(EngineError::CorruptMessage(_))));
    disk.put("db/hatp.wal", Vec::new());
    disk.put("db/MANIFEST", b"ARROW1 something".to_vec());
    assert!(matches!(try_open(&disk, config(&disk)), Err(EngineError::CorruptMessage(_))));
}

#[test]
fn an_unreadable_table_file_is_counted() {
    let disk = Disk::default();
    {
        let mut db = open(&disk);
        db.write(&[put(b"a", b"1")]).unwrap();
        db.flush().unwrap();
    }
    *disk.tables.borrow_mut() = Some(MemoryFormat::new());
    let db = open(&disk);
    assert_eq!(db.metrics().snapshot().sst_read_failures, 1);
    assert_eq!(db.scan_stats().unwrap().sst_rows, 0);
}

#[test]
fn a_log_above_its_limit_is_emptied_by_a_flush() {
    let disk = Disk::default();
    let mut db = try_open(&disk, config(&disk).with_wal_max_size(10)).unwrap();
    db.write(&[put(b"a", b"1")]).unwrap();
    assert!(!disk.bytes("db/hatp.wal").is_empty());
    db.flush().unwrap();
    assert!(disk.bytes("db/hatp.wal").is_empty());
    assert_eq!(read(&mut db, b"a"), Some(b"1".to_vec()));
    drop(db);
    let mut db = open(&disk);
    assert_eq!(read(&mut db, b"a"), Some(b"1".to_vec()));
    assert_eq!(db.snapshot_ts(), 1);
}

#[test]
fn scans_merge_memtable_and_files() {
    let disk = Disk::default();
    let mut db = open(&disk);
    db.write(&[put(b"a", b"1"), put(b"b", b"1"), put(b"c", b"1")]).unwrap();
    db.flush().unwrap();
    db.write(&[put(b"b", b"2"), delete(b"c"), put(b"d", b"9")]).unwrap();
    let ts = db.snapshot_ts();
    let pairs = db.scan_range(b"a", b"d", ts).unwrap();
    let pairs: Vec<_> = pairs.iter().map(|(k, v)| (k.to_vec(), v.to_vec())).collect();
    assert_eq!(pairs, vec![(b"a".to_vec(), b"1".to_vec()), (b"b".to_vec(), b"2".to_vec())]);
    let all = db.scan_all(ts).unwrap();
    assert_eq!(all.len(), 4);
    assert_eq!(all[2].0.as_ref(), b"c");
    assert!(all[2].1.is_none());
    assert_eq!(db.scan_all(1).unwrap().len(), 3);
    assert_eq!(db.scan_range(b"a", b"z", 0).unwrap().len(), 0);
}

#[test]
fn a_dropped_table_is_hidden_until_it_is_created_again() {
    let disk = Disk::default();
    let mut db = open(&disk);
    db.write(&[put(b"t\0old", b"1"), put(b"u\0x", b"1")]).unwrap();
    db.flush().unwrap();
    db.write(&[put(b"t\0new", b"2")]).unwrap();
    assert_eq!(db.drop_table_prefix("t").unwrap(), 1);
    assert_eq!(read(&mut db, b"t\0old"), None);
    assert_eq!(read(&mut db, b"t\0new"), None);
    assert_eq!(read(&mut db, b"u\0x"), Some(b"1".to_vec()));
    db.write(&[put(b"t\0again", b"3")]).unwrap();
    assert_eq!(read(&mut db, b"t\0again"), None);
    drop(db);
    let mut db = open(&disk);
    assert_eq!(read(&mut db, b"t\0old"), None);
    db.undrop_table_prefix("t").unwrap();
    assert_eq!(read(&mut db, b"t\0old"), Some(b"1".to_vec()));
    assert_eq!(read(&mut db, b"t\0again"), Some(b"3".to_vec()));
}

#[test]
fn compaction_keeps_what_snapshots_may_read() {
    let disk = Disk::default();
    let mut db = open(&disk);
    for value in [b"1", b"2", b"3"] {
        db.write(&[put(b"k", value)]).unwrap();
        if value == b"2" {
            assert_eq!(db.begin_read(), 2);
        }
        db.flush().unwrap();
    }
    assert_eq!(db.watermark(), 2);
    let handle = db.compact(0, 1).unwrap().expect("merged");
    assert_eq!(handle.rows, 2);
    assert_eq!(db.sst_file_ids(), vec![handle.file_id]);
    assert_eq!(read(&mut db, b"k"), Some(b"3".to_vec()));
    assert_eq!(db.get(b"k", 2).unwrap().unwrap().as_ref(), b"2");
    assert!(db.get(b"k", 1).unwrap().is_none());
    assert!(db.compact(0, 1).unwrap().is_none());
    db.unpin_snapshot(2);
    assert_eq!(db.watermark(), 3);
    db.write(&[put(b"k", b"4")]).unwrap();
    db.flush().unwrap();
    let handles = db.sub_compact(0, 1, 4).unwrap().expect("merged by parts");
    assert_eq!(handles.len(), 1);
    assert_eq!(handles[0].rows, 1);
    assert_eq!(db.scan_stats().unwrap().sst_rows, 1);
    assert_eq!(db.metrics().snapshot().compaction_count, 2);
    assert_eq!(read(&mut db, b"k"), Some(b"4".to_vec()));
}

#[test]
fn a_crash_within_a_compaction_loses_nothing() {
    let disk = Disk { keeps_tables: true, ..Disk::default() };
    let mut db = open(&disk);
    for round in 0..3u8 {
        db.write(&[put(b"k", &[round]), put(&[b'a' + round], b"v")]).unwrap();
        db.flush().unwrap();
    }
    let before = disk.bytes("db/MANIFEST").len();
    db.compact(0, 1).unwrap().expect("three inputs");
    drop(db);
    let manifest = disk.bytes("db/MANIFEST");
    assert!(manifest.len() > before);
    disk.put("db/hatp.wal", Vec::new());
    for cut in before..=manifest.len() {
        disk.put("db/MANIFEST", manifest[..cut].to_vec());
        let mut db = open(&disk);
        assert_eq!(read(&mut db, b"k"), Some(vec![2]), "{cut}");
        for round in 0..3u8 {
            assert_eq!(read(&mut db, &[b'a' + round]), Some(b"v".to_vec()), "{cut}");
        }
        assert_eq!(db.metrics().snapshot().sst_read_failures, 0);
    }
}

#[test]
fn the_background_pass_runs_what_the_picker_chooses() {
    let disk = Disk::default();
    let mut db = open(&disk);
    assert!(db.run_compaction_iteration().is_none());
    for i in 0..4u8 {
        db.write(&[put(&[b'a' + i], b"v")]).unwrap();
        db.flush().unwrap();
    }
    assert_eq!(db.compaction_files().len(), 4);
    assert_eq!(db.compaction_files()[0].created_at, 1000);
    assert!(db.run_compaction_iteration().expect("a job").expect("done"));
    assert_eq!(db.sst_file_ids().len(), 1);
    assert_eq!(read(&mut db, b"d"), Some(b"v".to_vec()));
    db.observe_workload();
    db.record_compaction_panic();
    assert_eq!(db.metrics().snapshot().compaction_panics, 1);
    assert_eq!(db.gc_interval(), 10_000);
}

/// Leaves every file where it is.
struct Idle;

impl CompactionPicker for Idle {
    fn pick(&self, _files: &[FileMeta]) -> Option<CompactionJob> {
        None
    }
}

#[test]
fn a_picker_of_the_application_decides() {
    let disk = Disk::default();
    let mut db = Engine::open(
        config(&disk).with_compaction_picker(Idle),
        disk.handle("db/hatp.wal"),
        disk.handle("db/MANIFEST"),
        disk.handle("db/unused"),
        NameMap::new(),
    )
    .expect("open");
    for i in 0..4u8 {
        db.write(&[put(&[b'a' + i], b"v")]).unwrap();
        db.flush().unwrap();
    }
    assert!(db.run_compaction_iteration().is_none());
    assert_eq!(db.sst_file_ids(), vec![0, 1, 2, 3]);
}

#[test]
fn garbage_goes_once_no_snapshot_needs_it() {
    let disk = Disk::default();
    let mut db = open(&disk);
    db.write(&[put(b"k", b"1")]).unwrap();
    db.pin_snapshot(1);
    db.write(&[put(b"k", b"2")]).unwrap();
    db.write(&[put(b"k", b"3")]).unwrap();
    assert_eq!(db.garbage_collect(), 0);
    db.unpin_snapshot(1);
    assert_eq!(db.background_gc(), 2);
    assert_eq!(db.metrics().snapshot().gc_versions_dropped, 2);
    assert_eq!(read(&mut db, b"k"), Some(b"3".to_vec()));
}

#[test]
fn an_accepted_write_has_its_id_reserved() {
    let disk = Disk::default();
    let mut db = open(&disk);
    assert!(matches!(db.accept(4, &[]), Err(EngineError::EmptyBatch)));
    assert!(matches!(db.accept(0, &[put(b"k", b"v")]), Err(EngineError::Corrupt(_))));
    assert!(matches!(db.accept(4, &[put(b"k", b"v")]), Ok(ThrottleLevel::Off)));
    assert_eq!(db.snapshot_ts(), 0);
    assert_eq!(db.reserve_tx_id(), 5);
}

#[test]
fn a_full_memtable_throttles_writers() {
    let disk = Disk::default();
    let mut settings = config(&disk);
    settings.memtable_flush_bytes = 100;
    let settings = settings.with_pressure(PressureConfig::default());
    let mut db = try_open(&disk, settings).unwrap();
    db.write(&[put(b"k", &[0u8; 90])]).unwrap();
    assert!(db.should_flush());
    assert!(matches!(db.write(&[put(b"k", b"v")]), Err(EngineError::Throttled)));
    db.flush().unwrap();
    assert!(!db.should_flush());
    assert_eq!(db.write(&[put(b"k", b"v")]).unwrap(), 2);
}

struct Gatekeeper;

impl EngineHook for Gatekeeper {
    fn on_pre_commit(&self, tx_id: u64, mutations: &[Mutation]) -> Result<(), EngineError> {
        if mutations[0].key().as_ref() == b"bad" {
            Err(EngineError::WriteConflict { txn: tx_id, key: b"bad".to_vec() })
        } else {
            Ok(())
        }
    }
}

fn guarded(disk: &Disk) -> Db<Gatekeeper> {
    let opened: Result<Db<Gatekeeper>, EngineError> = Engine::open_with_hook(
        config(disk),
        Gatekeeper,
        disk.handle("db/hatp.wal"),
        disk.handle("db/MANIFEST"),
        disk.handle("db/unused"),
        NameMap::new(),
    );
    opened.expect("open")
}

#[test]
fn a_refused_transaction_leaves_no_trace() {
    let disk = Disk::default();
    let mut db = guarded(&disk);
    let refused = db.write(&[put(b"bad", b"v")]);
    assert!(matches!(refused, Err(EngineError::WriteConflict { .. })));
    assert!(disk.bytes("db/hatp.wal").is_empty());
    let counted = db.metrics().snapshot();
    assert_eq!((counted.tx_aborted, counted.ssi_conflicts, counted.tx_committed), (1, 1, 0));
    assert_eq!(db.write(&[put(b"good", b"v")]).unwrap(), 1);
}

#[test]
fn a_group_commits_all_that_are_admitted() {
    let disk = Disk::default();
    let mut db = guarded(&disk);
    db.set_subscribers(1);
    let group = vec![
        PendingWrite { tx_id: 1, mutations: vec![put(b"a", b"1")] },
        PendingWrite { tx_id: 2, mutations: vec![put(b"bad", b"2")] },
        PendingWrite { tx_id: 3, mutations: vec![put(b"b", b"3")] },
    ];
    let outcome = db.commit_pending(&group);
    assert!(outcome.failure.is_none());
    assert!(matches!(outcome.results[0], Ok(1)));
    assert!(matches!(outcome.results[1], Err(EngineError::WriteConflict { .. })));
    assert!(matches!(outcome.results[2], Ok(2)));
    let events = db.take_events();
    let seen: Vec<(u64, u64)> = events.iter().map(|e| (e.tx_id, e.commit_ts)).collect();
    assert_eq!(seen, vec![(1, 1), (3, 2)]);
    assert!(db.take_events().is_empty());
    assert_eq!(db.watcher().resolved_ts(), 2);
    db.sync_log().unwrap();
}

fn people() -> Schema {
    Schema::new(vec![
        Field::new("id", DataType::Int64, false),
        Field::new("name", DataType::Utf8, true),
    ])
}

fn batch(rows: &[(i64, &str)]) -> ColumnBatch {
    ColumnBatch {
        schema: people(),
        columns: vec![
            rows.iter().map(|r| ScalarValue::Int64(Some(r.0))).collect(),
            rows.iter().map(|r| ScalarValue::Utf8(Some(r.1.to_string()))).collect(),
        ],
        num_rows: rows.len(),
    }
}

fn names(batches: &[ColumnBatch]) -> Vec<ScalarValue> {
    let mut out = Vec::new();
    for b in batches {
        out.extend(b.columns.last().unwrap().iter().cloned());
    }
    out
}

fn text(s: &str) -> ScalarValue {
    ScalarValue::Utf8(Some(s.to_string()))
}

#[test]
fn rows_go_in_and_come_out_as_columns() {
    let disk = Disk::default();
    let mut db = open(&disk);
    let pk = vec!["id".to_string()];
    let codec = OrderedPkCodec;
    let rows = [batch(&[(2, "b"), (-1, "x")]), batch(&[(2, "bb"), (1, "a")])];
    let puts = db.ingest_batches(&codec, &rows, "people", &pk).unwrap();
    assert_eq!(puts.len(), 3);
    db.write(&puts).unwrap();
    assert_eq!(db.table_schema("people"), Some(&people()));

    let scanned = db.scan_table("people", None, None).unwrap();
    assert_eq!(names(&scanned), vec![text("x"), text("a"), text("bb")]);
    let narrow = db.scan_table("people", Some(&[1]), None).unwrap();
    assert_eq!(narrow[0].columns.len(), 1);
    assert!(db.scan_table("people", Some(&[7]), None).is_err());
    assert!(db.scan_table("nobody", None, None).is_err());
    let empty = db.scan_table("nobody", None, Some(&people())).unwrap();
    assert_eq!(empty[0].num_rows, 0);

    db.flush().unwrap();
    assert_eq!(db.table_row_count("people"), 3);
    let zones = db.table_zone_maps("people", None);
    assert_eq!(zones.len(), 1);
    assert_eq!(zones[0].1.total_rows, 3);
    assert_eq!(zones[0].1.column_min.get("id"), Some(&ScalarValue::Int64(Some(-1))));
    assert_eq!(zones[0].1.column_max.get("name"), Some(&text("x")));
    assert_eq!(zones[0].1.column_null_count.get("name"), None);
    assert!(db.table_zone_maps("qeople", None).is_empty());
    assert_eq!(names(&db.scan_table("people", None, None).unwrap()).len(), 3);

    let above = [ColumnPredicate::GreaterThan { col: 0, value: ScalarValue::Int64(Some(5)) }];
    let none = db.scan_table_arrow("people", None, None, 10, Some(&above)).unwrap();
    assert_eq!(none.len(), 1);
    assert_eq!(none[0][0].num_rows, 0);
    let parts = db.scan_table_arrow("people", None, None, 2, None).unwrap();
    assert_eq!(parts.len(), 1);
    assert_eq!(parts[0].len(), 2);

    db.drop_table_prefix("people").unwrap();
    db.write(&puts).unwrap();
    assert!(names(&db.scan_table("people", None, None).unwrap()).is_empty());
}

#[test]
fn deeper_files_are_partitions_of_their_own() {
    let disk = Disk::default();
    let mut db = open(&disk);
    let pk = vec!["id".to_string()];
    for group in [[(1, "a"), (2, "b")], [(3, "c"), (4, "d")]] {
        let puts = db.ingest_batches(&OrderedPkCodec, &[batch(&group)], "people", &pk).unwrap();
        db.write(&puts).unwrap();
        db.flush().unwrap();
    }
    db.compact(0, 1).unwrap().expect("merged");
    let puts = db.ingest_batches(&OrderedPkCodec, &[batch(&[(5, "e")])], "people", &pk).unwrap();
    db.write(&puts).unwrap();
    let parts = db.scan_table_arrow("people", None, None, 100, None).unwrap();
    assert_eq!(parts.len(), 2);
    assert_eq!(names(&parts[0]), vec![text("e")]);
    assert_eq!(names(&parts[1]).len(), 4);
    assert_eq!(names(&db.scan_table("people", None, None).unwrap()).len(), 5);
}

#[test]
fn key_columns_stay_those_of_the_first_ingest() {
    let disk = Disk::default();
    let mut db = open(&disk);
    let codec = OrderedPkCodec;
    let pk = vec!["id".to_string()];
    assert!(matches!(
        db.ingest_batches(&codec, &[], "people", &pk),
        Err(EngineError::Corrupt("ingest_batches: no batches"))
    ));
    assert_eq!(db.key_columns("people"), None);
    let missing = vec!["nope".to_string()];
    assert!(db.ingest_batches(&codec, &[batch(&[(1, "a")])], "people", &missing).is_err());
    assert_eq!(db.key_columns("people"), None);

    let puts = db.ingest_batches(&codec, &[batch(&[(1, "a")])], "people", &pk).unwrap();
    assert_eq!(db.key_columns("people"), Some(&vec![(0, "id".to_string())]));
    assert!(db.ingest_batches(&codec, &[], "people", &pk).unwrap().is_empty());
    assert!(db.ingest_batches(&codec, &[], "people", &[]).is_err());
    assert!(db.ingest_batches(&codec, &[], "others", &pk).is_err());
    let renamed = db.ingest_batches(&codec, &[batch(&[(1, "a")])], "people", &missing).unwrap();
    assert_eq!(format!("{renamed:?}"), format!("{puts:?}"));

    let bare = ColumnBatch { schema: Schema::new(Vec::new()), columns: Vec::new(), num_rows: 0 };
    assert!(db.ingest_batches(&codec, &[bare], "people", &pk).unwrap().is_empty());
    assert_eq!(db.table_schema("people"), Some(&Schema::new(Vec::new())));

    db.write(&puts).unwrap();
    drop(db);
    let mut db = open(&disk);
    assert_eq!(db.key_columns("people"), None);
    assert!(db.ingest_batches(&codec, &[], "people", &pk).is_err());
}

#[test]
fn ingest_and_delete_refuse_what_has_no_key() {
    let disk = Disk::default();
    let mut db = open(&disk);
    let codec = OrderedPkCodec;
    let pk = vec!["id".to_string()];
    let rows = [batch(&[(1, "a")])];
    assert!(matches!(db.ingest_batches(&codec, &rows, "people", &[]), Err(EngineError::Corrupt(_))));
    assert!(matches!(db.ingest_batches(&codec, &[], "people", &pk), Err(EngineError::Corrupt(_))));
    let missing = vec!["nope".to_string()];
    assert!(db.ingest_batches(&codec, &rows, "people", &missing).is_err());
    let mut null_key = batch(&[(1, "a")]);
    null_key.columns[0][0] = ScalarValue::Int64(None);
    assert!(matches!(
        db.ingest_batches(&codec, &[null_key], "people", &pk),
        Err(EngineError::NullPrimaryKey { .. })
    ));

    let one = [ColumnPredicate::Eq { col: 0, value: ScalarValue::Int64(Some(1)) }];
    assert!(db.delete_with_column_predicates(&codec, "people", &[], &one).is_err());
    assert!(db.delete_with_column_predicates(&codec, "people", &pk, &[]).is_err());
    let unknown = db.delete_with_column_predicates(&codec, "nobody", &pk, &one);
    assert!(matches!(unknown, Err(EngineError::CorruptMessage(_))));
}

#[test]
fn deletes_find_their_rows_by_key_or_by_scan() {
    let disk = Disk::default();
    let mut db = open(&disk);
    let codec = OrderedPkCodec;
    let pk = vec!["id".to_string()];
    let rows = [batch(&[(1, "a"), (2, "b"), (3, "b")])];
    let puts = db.ingest_batches(&codec, &rows, "people", &pk).unwrap();
    db.write(&puts).unwrap();
    db.flush().unwrap();

    let one = [ColumnPredicate::Eq { col: 0, value: ScalarValue::Int64(Some(1)) }];
    let gone = db.delete_with_column_predicates(&codec, "people", &pk, &one).unwrap();
    assert_eq!(gone.len(), 1);
    assert_eq!(gone[0].key(), puts[0].key());
    db.write(&gone).unwrap();
    let again = db.delete_with_column_predicates(&codec, "people", &pk, &one);
    assert!(matches!(again, Err(EngineError::EmptyBatch)));
    db.flush().unwrap();
    let again = db.delete_with_column_predicates(&codec, "people", &pk, &one);
    assert!(matches!(again, Err(EngineError::EmptyBatch)));

    let named = [ColumnPredicate::Eq { col: 1, value: text("b") }];
    let gone = db.delete_with_column_predicates(&codec, "people", &pk, &named).unwrap();
    assert_eq!(gone.len(), 2);
    db.write(&gone).unwrap();
    let again = db.delete_with_column_predicates(&codec, "people", &pk, &named);
    assert!(matches!(again, Err(EngineError::EmptyBatch)));
    assert!(names(&db.scan_table("people", None, None).unwrap()).is_empty());
}

#[test]
fn sidecars_are_written_and_can_be_missing() {
    let disk = Disk::default();
    {
        let mut db = open(&disk);
        db.write(&[put(b"k", b"v")]).unwrap();
        db.flush().unwrap();
    }
    let sidecars: Vec<String> =
        disk.files.borrow().keys().filter(|n| n.contains("0000")).cloned().collect();
    assert_eq!(sidecars.len(), 2);
    for name in &sidecars {
        disk.files.borrow_mut().remove(name);
    }
    let mut db = open(&disk);
    assert_eq!(read(&mut db, b"k"), Some(b"v".to_vec()));
    assert_eq!(read(&mut db, b"absent"), None);
}

#[test]
fn a_synced_commit_is_there_after_a_crash() {
    let disk = Disk::default();
    let db_config = config(&disk);
    assert_eq!(db_config.sync_mode, SyncMode::Full);
    let mut db = try_open(&disk, db_config).unwrap();
    assert_eq!(db.write(&[put(b"a", b"1"), put(b"b", b"1")]).unwrap(), 1);
    assert_eq!(db.write_with_tx(9, &[delete(b"a"), put(b"b", b"2")]).unwrap(), 2);
    let mut log = disk.bytes("db/hatp.wal");
    log.extend_from_slice(&[7, 0, 0]);
    disk.put("db/hatp.wal", log);
    drop(db);
    let mut db = open(&disk);
    assert_eq!(db.snapshot_ts(), 2);
    assert_eq!(read(&mut db, b"a"), None);
    assert_eq!(read(&mut db, b"b"), Some(b"2".to_vec()));
    assert_eq!(db.get(b"a", 1).unwrap().unwrap().as_ref(), b"1");
    assert!(db.reserve_tx_id() > 9);
}

#[test]
fn a_commit_that_cannot_be_synced_fails() {
    let disk = Disk::default();
    let mut db = open(&disk);
    db.write(&[put(b"a", b"1")]).unwrap();
    disk.set_broken(&["sync"]);
    let failed = db.write(&[put(b"a", b"2")]);
    assert_eq!(failed.unwrap_err().message(), "I/O error: disk gone");
    assert_eq!(read(&mut db, b"a"), Some(b"1".to_vec()));
    assert!(db.sync_log().is_err());
    disk.set_broken(&[]);
    db.sync_log().unwrap();
    db.write(&[put(b"a", b"3")]).unwrap();
    assert_eq!(read(&mut db, b"a"), Some(b"3".to_vec()));
}

#[test]
fn a_commit_that_is_not_synced_needs_no_sync() {
    let disk = Disk::default();
    let mode = SyncMode::Group { interval_us: 5 };
    let mut db = try_open(&disk, config(&disk).with_sync_mode(mode)).unwrap();
    disk.set_broken(&["sync"]);
    assert_eq!(db.write(&[put(b"a", b"1")]).unwrap(), 1);
    disk.set_broken(&["append"]);
    assert!(matches!(db.write(&[put(b"a", b"2")]), Err(EngineError::Io(_))));
    assert_eq!(read(&mut db, b"a"), Some(b"1".to_vec()));
}

#[test]
fn a_failed_flush_keeps_every_row() {
    let disk = Disk::default();
    let mut db = open(&disk);
    db.write(&[put(b"a", b"1"), put(b"b", b"1")]).unwrap();
    db.write(&[put(b"a", b"2")]).unwrap();
    disk.set_broken(&["store"]);
    assert!(matches!(db.flush(), Err(EngineError::Io(_))));
    assert_eq!(db.memtable().len(), 2);
    assert!(db.sst_file_ids().is_empty());
    assert_eq!(read(&mut db, b"a"), Some(b"2".to_vec()));
    assert_eq!(db.get(b"a", 1).unwrap().unwrap().as_ref(), b"1");
    disk.set_broken(&[]);
    assert_eq!(db.flush().unwrap().expect("a file").rows, 3);
    assert!(db.memtable().is_empty());
    assert_eq!(read(&mut db, b"a"), Some(b"2".to_vec()));
    assert_eq!(read(&mut db, b"b"), Some(b"1".to_vec()));
}

#[test]
fn a_later_commit_wins_over_an_earlier_file() {
    let disk = Disk::default();
    let mut db = open(&disk);
    db.write(&[put(b"a", b"1"), put(b"b", b"1")]).unwrap();
    db.flush().unwrap();
    db.write(&[put(b"a", b"2")]).unwrap();
    db.flush().unwrap();
    db.write(&[put(b"b", b"2")]).unwrap();
    assert_eq!(read(&mut db, b"a"), Some(b"2".to_vec()));
    assert_eq!(read(&mut db, b"b"), Some(b"2".to_vec()));
    assert_eq!(db.get(b"a", 1).unwrap().unwrap().as_ref(), b"1");
    assert_eq!(db.get(b"b", 2).unwrap().unwrap().as_ref(), b"1");
}

#[test]
fn a_dropped_table_scans_as_empty() {
    let disk = Disk::default();
    let mut db = open(&disk);
    let pk = vec!["id".to_string()];
    let puts = db.ingest_batches(&OrderedPkCodec, &[batch(&[(1, "a")])], "people", &pk).unwrap();
    db.write(&puts).unwrap();
    db.flush().unwrap();
    db.compact(0, 1).unwrap();
    db.write(&puts).unwrap();
    db.drop_table_prefix("people").unwrap();
    for _ in 0..2 {
        let scanned = db.scan_table("people", None, None).unwrap();
        assert_eq!(scanned.len(), 1);
        assert_eq!(scanned[0].num_rows, 0);
        let parts = db.scan_table_arrow("people", None, None, 10, None).unwrap();
        assert_eq!(parts.len(), 1);
        assert_eq!(parts[0].len(), 1);
        assert_eq!(parts[0][0].num_rows, 0);
        db.write(&puts).unwrap();
    }
}

#[test]
fn a_null_where_none_is_allowed_stops_a_scan() {
    let disk = Disk::default();
    let mut db = open(&disk);
    let pk = vec!["id".to_string()];
    let rows = ColumnBatch {
        schema: Schema::new(vec![
            Field::new("id", DataType::Int64, false),
            Field::new("x", DataType::Utf8, false),
        ]),
        columns: vec![vec![ScalarValue::Int64(Some(1))], vec![ScalarValue::Utf8(None)]],
        num_rows: 1,
    };
    let puts = db.ingest_batches(&OrderedPkCodec, &[rows], "t", &pk).unwrap();
    db.write(&puts).unwrap();
    let message = "build scan batch: Invalid argument error: Column 'x' is declared as \
                   non-nullable but contains null values";
    match db.scan_table("t", None, None) {
        Err(EngineError::CorruptMessage(m)) => assert_eq!(m, message),
        _ => panic!("the scan went on"),
    }
    assert!(db.scan_table_arrow("t", None, None, 10, None).is_err());
    let ids = db.scan_table("t", Some(&[0]), None).unwrap();
    assert_eq!(ids[0].columns[0], vec![ScalarValue::Int64(Some(1))]);
}

#[test]
fn batches_of_no_rows_hold_no_rows() {
    let disk = Disk::default();
    let mut db = open(&disk);
    let empty = db.scan_table_arrow("people", None, Some(&people()), 0, None).unwrap();
    assert_eq!(empty.len(), 1);
    assert_eq!(empty[0].len(), 1);
    assert_eq!(empty[0][0].num_rows, 0);
    let pk = vec!["id".to_string()];
    let puts = db.ingest_batches(&OrderedPkCodec, &[batch(&[(1, "a")])], "people", &pk).unwrap();
    db.write(&puts).unwrap();
    let message = "build scan batch: Execution error: Empty iterator passed to \
                   ScalarValue::iter_to_array";
    match db.scan_table_arrow("people", None, None, 0, None) {
        Err(EngineError::CorruptMessage(m)) => assert_eq!(m, message),
        _ => panic!("the scan went on"),
    }
}

/// Notes what it is told.
struct Notebook {
    heard: Rc<RefCell<Vec<String>>>,
}

impl EngineHook for Notebook {
    fn on_put(&self, key: &[u8], value: &[u8], tx_id: u64) {
        self.heard.borrow_mut().push(format!("put {key:?} {value:?} {tx_id}"));
    }

    fn on_delete(&self, key: &[u8], tx_id: u64) {
        self.heard.borrow_mut().push(format!("delete {key:?} {tx_id}"));
    }

    fn on_tx_commit(&self, tx_id: u64, commit_ts: u64) {
        self.heard.borrow_mut().push(format!("commit {tx_id} {commit_ts}"));
    }
}

#[test]
fn a_hook_is_told_of_every_commit() {
    let disk = Disk::default();
    let heard = Rc::new(RefCell::new(Vec::new()));
    let opened: Result<Db<Notebook>, EngineError> = Engine::open_with_hook(
        config(&disk),
        Notebook { heard: heard.clone() },
        disk.handle("db/hatp.wal"),
        disk.handle("db/MANIFEST"),
        disk.handle("db/unused"),
        NameMap::new(),
    );
    let mut db = opened.expect("open");
    db.write_with_tx(5, &[put(&[1], &[2]), delete(&[3])]).unwrap();
    db.commit_pending(&[PendingWrite { tx_id: 6, mutations: vec![put(&[4], &[5])] }]);
    disk.set_broken(&["append"]);
    assert!(db.write_with_tx(7, &[put(&[6], &[7])]).is_err());
    let told = ["put [1] [2] 5", "delete [3] 5", "commit 5 1", "put [4] [5] 6", "commit 6 2"];
    assert_eq!(*heard.borrow(), told);
}

#[test]
fn files_are_as_large_as_the_format_says() {
    let disk = Disk { file_bytes: 4242, ..Disk::default() };
    {
        let mut db = open(&disk);
        let pk = vec!["id".to_string()];
        let rows = [batch(&[(1, "a"), (2, "b")])];
        let puts = db.ingest_batches(&OrderedPkCodec, &rows, "people", &pk).unwrap();
        db.write(&puts).unwrap();
        assert_eq!(db.flush().unwrap().expect("a file").bytes, 4242);
        assert_eq!(db.total_sst_bytes(), 4242);
        assert_eq!(db.metrics().snapshot().sst_bytes_written, 4242);
        assert_eq!(db.compaction_files()[0].bytes, 4242);
        let zones = db.table_zone_maps("people", None);
        assert_eq!(zones[0].1.total_bytes, 4242);
        assert_eq!(zones[0].1.column_min.get("id"), Some(&ScalarValue::Int64(Some(1))));
        assert_eq!(zones[0].1.column_min.get("size"), None);
        db.write(&[put(b"z", b"1")]).unwrap();
        db.flush().unwrap();
        assert_eq!(db.compact(0, 1).unwrap().expect("merged").bytes, 4242);
        assert_eq!(db.total_sst_bytes(), 4242);
    }
    let db = open(&disk);
    let zones = db.table_zone_maps("people", None);
    assert_eq!(zones.len(), 1);
    assert_eq!(zones[0].1.total_bytes, 4242);
    assert_eq!(zones[0].1.column_min.get("id"), None);
    assert_eq!(zones[0].1.column_min.get("size"), Some(&ScalarValue::UInt64(Some(4242))));
    assert_eq!(zones[0].1.column_null_count.get("size"), Some(&7));
    assert!(zones[0].1.column_max.get("size").is_none());
}

/// Compacts the first level once it has seen three commits.
struct Learning {
    commits: u64,
}

impl CompactionPicker for Learning {
    fn pick(&self, files: &[FileMeta]) -> Option<CompactionJob> {
        if self.commits != 3 {
            return None;
        }
        Some(CompactionJob {
            kind: CompactionKind::L0ToL1,
            source_level: 0,
            target_level: 1,
            inputs: files.iter().map(|f| f.file_id).collect(),
            estimated_bytes: 1,
            priority: 1,
        })
    }

    fn update_from_workload(&mut self, metrics: &MetricsSnapshot) {
        self.commits = metrics.tx_committed;
    }
}

#[test]
fn a_picker_learns_from_the_workload() {
    let disk = Disk::default();
    let mut db = Engine::open(
        config(&disk).with_compaction_picker(Learning { commits: 0 }),
        disk.handle("db/hatp.wal"),
        disk.handle("db/MANIFEST"),
        disk.handle("db/unused"),
        NameMap::new(),
    )
    .expect("open");
    for i in 0..3u8 {
        db.write(&[put(&[b'a' + i], b"v")]).unwrap();
        db.flush().unwrap();
        assert!(db.run_compaction_iteration().is_none());
    }
    db.observe_workload();
    assert!(matches!(db.run_compaction_iteration(), Some(Ok(true))));
    assert_eq!(db.sst_file_ids(), vec![3]);
}

#[test]
fn a_dropped_table_stays_hidden_until_the_mark_is_cleared() {
    let disk = Disk::default();
    let mut db = open(&disk);
    let pk = vec!["id".to_string()];
    let puts = db.ingest_batches(&OrderedPkCodec, &[batch(&[(1, "a")])], "people", &pk).unwrap();
    db.drop_table_prefix("people").unwrap();
    for round in 0..3 {
        db.write(&puts).unwrap();
        let hidden = db.scan_table("people", None, Some(&people())).unwrap();
        assert_eq!(hidden[0].num_rows, 0);
        assert_eq!(read(&mut db, puts[0].key().as_ref()), None);
        db.flush().unwrap();
        if round == 1 {
            db.compact(0, 1).unwrap();
            db.drop_table_prefix("other").unwrap();
        }
    }
    drop(db);
    let mut db = open(&disk);
    let hidden = db.scan_table("people", None, Some(&people())).unwrap();
    assert_eq!(hidden[0].num_rows, 0);
    db.undrop_table_prefix("people").unwrap();
    let shown = db.scan_table("people", None, Some(&people())).unwrap();
    assert_eq!(names(&shown), vec![text("a")]);
}

#[test]
fn an_engine_runs_on_either_memtable() {
    for kind in [MemTableImpl::BTreeMap, MemTableImpl::SkipMap] {
        let disk = Disk::default();
        let mut db = try_open(&disk, config(&disk).with_memtable_impl(kind)).unwrap();
        db.write(&[put(b"b", b"1"), put(b"a", b"1")]).unwrap();
        db.write(&[delete(b"b")]).unwrap();
        let all = db.scan_all(2).unwrap();
        let keys: Vec<&[u8]> = all.iter().map(|(k, _)| k.as_ref()).collect();
        assert_eq!(keys, vec![&b"a"[..], &b"b"[..]]);
        assert!(all[1].1.is_none());
    }
}
