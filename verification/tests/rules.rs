use bytes::Bytes;
use hatp_engine::column_predicate::ColumnPredicate;
use hatp_engine::column_stats::{
    compute_column_stats, key_table, schema_table_of, skip_by_stats,
};
use hatp_engine::config::DEFAULT_WAL_MAX_SIZE_BYTES;
use hatp_engine::fault_injector::{
    hit_count, FaultAction, FaultCallback, FaultInjector, FaultRegistry, FaultSource,
};
use hatp_engine::keys::{key_table_prefix, prefix_upper_exclusive, table_prefix};
use hatp_engine::memtable::{MemTable, MemTableImpl, VersionedRow};
use hatp_engine::merge::{count_rows_by_prefix, dedup_superseded};
use hatp_engine::metrics::EngineMetrics;
use hatp_engine::name_map::NameMap;
use hatp_engine::paths::{
    bloom_path, key_index_path, manifest_path, schemas_path, sst_path, wal_path,
};
use hatp_engine::pins::SnapshotPins;
use hatp_engine::pk::{
    build_pk_key_from_scalars, try_extract_pk_eq_from_predicates, OrderedPkCodec, PkCodec,
};
use hatp_engine::pressure::{PressureConfig, PressureThrottle, ThrottleLevel};
use hatp_engine::recovery::replay_wal;
use hatp_engine::row_codec::encode_row;
use hatp_engine::scalar::{DataType, ScalarValue};
use hatp_engine::schema::{ColumnBatch, Field, Schema};
use hatp_engine::sidecars::build_filter;
use hatp_engine::sst_format::{can_vortex_pushdown, MemoryFormat, SstFormat, VortexFormat};
use hatp_engine::vortex_sst::{
    build_columns, business_column_name, collect_rows, get_filter, scan_filter, ReadColumns,
};
use hatp_engine::wal::WalRecord;
use hatp_engine::worker::{WorkerState, WorkerStep};
use hatp_engine::{
    assemble_table_key, EngineConfig, EngineError, Snapshot, SyncMode, VersionedValue,
    OPEN_ENDED_TS,
};

fn row(key: &[u8], value: Option<&[u8]>, begin_ts: u64, end_ts: u64) -> VersionedRow {
    VersionedRow {
        key: Bytes::copy_from_slice(key),
        version: VersionedValue {
            value: value.map(Bytes::copy_from_slice),
            begin_ts,
            end_ts,
            tx_id: 0,
        },
    }
}

#[test]
fn the_watermark_stops_at_the_oldest_pin() {
    let mut pins = SnapshotPins::new();
    assert_eq!(pins.watermark(9), 9);
    pins.pin(4);
    pins.pin(4);
    pins.pin(7);
    assert_eq!(pins.watermark(9), 4);
    pins.unpin(4);
    assert_eq!(pins.watermark(9), 4);
    pins.unpin(4);
    assert_eq!(pins.watermark(9), 7);
    pins.unpin(7);
    pins.unpin(7);
    assert_eq!(pins.watermark(9), 9);
    pins.pin(20);
    assert_eq!(pins.watermark(9), 9);
}

#[test]
fn the_worker_backs_off_and_gives_up() {
    let mut state = WorkerState::new(0);
    let calm = WorkerStep::Wait { backoff_ms: 0, interval_ms: 5000 };
    assert_eq!(state.after_pass(false), calm);
    for ms in [200, 400, 800, 1600, 3200, 6400, 6400] {
        let step = state.after_pass(true);
        assert_eq!(step, WorkerStep::Wait { backoff_ms: ms, interval_ms: 5000 });
    }
    assert_eq!(state.after_pass(false), calm);
    assert_eq!(state.panic_count, 0);
    for _ in 0..100 {
        assert_ne!(state.after_pass(true), WorkerStep::Quit);
    }
    assert_eq!(state.after_pass(true), WorkerStep::Quit);
}

#[test]
fn garbage_is_due_by_the_interval() {
    let mut state = WorkerState::new(100);
    assert!(!state.collects_garbage(1099, 1000));
    assert!(state.collects_garbage(1100, 1000));
    assert!(!state.collects_garbage(1101, 1000));
    assert_eq!(state.last_gc_at, 1100);
}

#[test]
fn pressure_rises_with_the_memtable() {
    let config = PressureConfig { memtable_flush_bytes: 1000, ..PressureConfig::default() };
    let throttle = PressureThrottle::new(config);
    let mut m = EngineMetrics::new();
    for (bytes, level) in [
        (0, ThrottleLevel::Off),
        (699, ThrottleLevel::Off),
        (700, ThrottleLevel::Soft),
        (949, ThrottleLevel::Soft),
        (950, ThrottleLevel::Hard),
    ] {
        m.set_memtable_bytes(bytes);
        assert_eq!(throttle.should_throttle(&m.snapshot()), level);
    }
    assert_eq!(throttle.soft_sleep(), 1);
}

#[test]
fn faults_fire_where_they_are_set() {
    let mut registry = FaultRegistry::new();
    assert!(hatp_engine::fault_injector::trigger(&mut registry, "p").is_none());
    assert_eq!(hit_count(&registry, "p"), 0);
    let injector = FaultInjector::enable(&mut registry);
    FaultInjector::set_fail_on_nth(&mut registry, "p", 2, FaultAction::Error("no".to_string()));
    FaultInjector::set_callback(&mut registry, "q", FaultCallback::Always(FaultAction::Pause));
    assert!(!matches!(hatp_engine::fault_injector::trigger(&mut registry, "p"), Some(FaultAction::Error(_))));
    assert!(matches!(hatp_engine::fault_injector::trigger(&mut registry, "p"), Some(FaultAction::Error(_))));
    assert!(matches!(hatp_engine::fault_injector::trigger(&mut registry, "q"), Some(FaultAction::Pause)));
    assert_eq!(hit_count(&registry, "p"), 2);
    injector.disable(&mut registry);
    assert!(hatp_engine::fault_injector::trigger(&mut registry, "p").is_none());
    assert_eq!(hit_count(&registry, "p"), 0);
}

#[test]
fn every_trigger_of_a_set_point_is_counted() {
    let mut registry = FaultRegistry::new();
    let injector = FaultInjector::enable(&mut registry);
    FaultInjector::set_callback(&mut registry, "q", FaultCallback::Always(FaultAction::Pause));
    for n in 0..5 {
        assert_eq!(hit_count(&registry, "q"), n);
        hatp_engine::fault_injector::trigger(&mut registry, "q");
        hatp_engine::fault_injector::trigger(&mut registry, "unset");
    }
    assert_eq!(hit_count(&registry, "q"), 5);
    injector.disable(&mut registry);
}

/// Pauses every other time.
struct Alternating(bool);

impl FaultSource for Alternating {
    fn next_fault(&mut self) -> FaultAction {
        self.0 = !self.0;
        if self.0 {
            FaultAction::Pause
        } else {
            FaultAction::Pass
        }
    }
}

#[test]
fn an_application_decides_call_by_call() {
    let mut registry: FaultRegistry<Alternating> = FaultRegistry::with_sources();
    let injector = FaultInjector::enable(&mut registry);
    let callback = FaultCallback::Custom(Alternating(false));
    FaultInjector::set_callback(&mut registry, "p", callback);
    let first = hatp_engine::fault_injector::trigger(&mut registry, "p");
    assert!(matches!(first, Some(FaultAction::Pause)));
    let second = hatp_engine::fault_injector::trigger(&mut registry, "p");
    assert!(matches!(second, Some(FaultAction::Pass)));
    let third = hatp_engine::fault_injector::trigger(&mut registry, "p");
    assert!(matches!(third, Some(FaultAction::Pause)));
    assert_eq!(hit_count(&registry, "p"), 3);
    injector.disable(&mut registry);
    assert!(hatp_engine::fault_injector::trigger(&mut registry, "p").is_none());
}

#[test]
fn keys_begin_with_their_table() {
    assert_eq!(table_prefix("t"), b"t\0".to_vec());
    assert_eq!(key_table_prefix(b"t\0a\0b"), b"t\0");
    assert_eq!(key_table_prefix(b"bare"), b"bare");
    assert_eq!(prefix_upper_exclusive(b"t\0"), b"t\x01".to_vec());
    assert_eq!(prefix_upper_exclusive(b"a\xFF\xFF"), b"b".to_vec());
    assert_eq!(prefix_upper_exclusive(b"\xFF"), b"\xFF".to_vec());
    let key = assemble_table_key("t", &[b"ab".to_vec(), b"c".to_vec()]);
    assert_eq!(key_table_prefix(&key), b"t\0");
}

#[test]
fn encoded_keys_keep_the_order_of_values() {
    let codec = OrderedPkCodec;
    let values = [-300i64, -1, 0, 1, 255, 256, 70000];
    let cols = vec![(0usize, "id".to_string())];
    let mut last: Option<Bytes> = None;
    for v in values {
        let cells = [ScalarValue::Int64(Some(v))];
        let key = build_pk_key_from_scalars(&codec, "t", &cols, &cells).unwrap();
        if let Some(before) = &last {
            assert!(before < &key);
        }
        last = Some(key);
    }
    let null = [ScalarValue::Int64(None)];
    let refused = build_pk_key_from_scalars(&codec, "t", &cols, &null);
    match refused {
        Err(EngineError::NullPrimaryKey { table, column }) => {
            assert_eq!((table.as_str(), column.as_str()), ("t", "id"));
        }
        _ => panic!("a null key was accepted"),
    }
    assert!(codec.encode_pk_value(&ScalarValue::Utf8(None)).is_none());
}

#[test]
fn only_one_equality_per_key_column_fixes_the_key() {
    let schema = Schema::new(vec![
        Field::new("a", DataType::Int64, false),
        Field::new("b", DataType::Utf8, false),
        Field::new("c", DataType::Utf8, true),
    ]);
    let pk = vec!["a".to_string(), "b".to_string()];
    let a = ColumnPredicate::Eq { col: 0, value: ScalarValue::Int64(Some(1)) };
    let b = ColumnPredicate::Eq { col: 1, value: ScalarValue::Utf8(Some("x".to_string())) };
    let c = ColumnPredicate::Eq { col: 2, value: ScalarValue::Utf8(Some("y".to_string())) };
    let codec = OrderedPkCodec;
    let found = |ps: &[ColumnPredicate]| {
        try_extract_pk_eq_from_predicates(&codec, ps, &pk, &schema).is_some()
    };
    assert!(found(&[b.clone(), a.clone()]));
    assert!(!found(&[a.clone()]));
    assert!(!found(&[a.clone(), b.clone(), c]));
    assert!(!found(&[a.clone(), a.clone(), b.clone()]));
    let more = ColumnPredicate::GreaterThan { col: 0, value: ScalarValue::Int64(Some(1)) };
    assert!(!found(&[more, b]));
}

#[test]
fn paths_follow_the_directory() {
    assert_eq!(wal_path("d"), "d/hatp.wal");
    assert_eq!(manifest_path("d"), "d/MANIFEST");
    assert_eq!(schemas_path("d"), "d/hatp.schemas");
    assert!(sst_path("d", 7).starts_with("d/"));
    assert_ne!(sst_path("d", 7), sst_path("d", 8));
    assert_ne!(bloom_path("d", 7), key_index_path("d", 7));
}

#[test]
fn merging_keeps_what_the_watermark_needs() {
    let rows = vec![
        row(b"a", Some(b"1"), 1, 3),
        row(b"b", Some(b"x"), 2, OPEN_ENDED_TS),
        row(b"a", Some(b"2"), 3, 5),
        row(b"a", None, 5, OPEN_ENDED_TS),
    ];
    let merged = dedup_superseded(rows, 4);
    let begins: Vec<(Vec<u8>, u64)> =
        merged.iter().map(|r| (r.key.to_vec(), r.version.begin_ts)).collect();
    assert_eq!(
        begins,
        vec![(b"a".to_vec(), 5), (b"a".to_vec(), 3), (b"b".to_vec(), 2)]
    );
    let counts = count_rows_by_prefix(&merged);
    assert_eq!(counts.get(b"a"), Some(&2));
    assert_eq!(counts.get(b"b"), Some(&1));
}

fn stored_row(table: &str, id: i64) -> (Schema, VersionedRow) {
    let schema = Schema::new(vec![Field::new("id", DataType::Int64, true)]);
    let batch = ColumnBatch {
        schema: schema.clone(),
        columns: vec![vec![ScalarValue::Int64(Some(id))]],
        num_rows: 1,
    };
    let payload = encode_row(&batch, 0).unwrap();
    let key = assemble_table_key(table, &[vec![id as u8]]);
    (schema, row(&key, Some(&payload), 1, OPEN_ENDED_TS))
}

#[test]
fn column_statistics_bound_the_rows() {
    let (schema, low) = stored_row("t", 3);
    let (_, high) = stored_row("t", 9);
    let mut schemas = NameMap::new();
    schemas.insert("t", schema);
    let stats = compute_column_stats(&[low, high, row(b"bare", Some(b"x"), 1, 2)], &schemas);
    assert_eq!(stats.len(), 1);
    let t = stats.get("t").unwrap();
    assert_eq!(t.min.get("id"), Some(&ScalarValue::Int64(Some(3))));
    assert_eq!(t.max.get("id"), Some(&ScalarValue::Int64(Some(9))));
    let at = |v: i64| {
        vec![(
            "id".to_string(),
            ColumnPredicate::Eq { col: 0, value: ScalarValue::Int64(Some(v)) },
        )]
    };
    assert!(skip_by_stats(t, &at(10)));
    assert!(!skip_by_stats(t, &at(5)));
}

#[test]
fn a_table_name_that_is_no_text_is_decoded_lossily() {
    assert_eq!(schema_table_of(b"t\0k"), "t");
    assert_eq!(schema_table_of(b"\xFF\0k"), "\u{FFFD}");
}

#[test]
fn filters_of_files_miss_few_keys() {
    let rows: Vec<VersionedRow> =
        (0..500u32).map(|i| row(&i.to_le_bytes(), Some(b"v"), 1, OPEN_ENDED_TS)).collect();
    let filter = build_filter(&rows);
    for r in &rows {
        assert!(filter.contains(&r.key));
    }
    let wrong = (1000..2000u32).filter(|i| filter.contains(&i.to_le_bytes())).count();
    assert!(wrong < 50, "{wrong} false positives in 1000");
}

#[test]
fn errors_read_as_people_expect() {
    assert_eq!(EngineError::EmptyBatch.message(), "transaction batch is empty");
    assert_eq!(EngineError::Corrupt("x").message(), "corrupt data: x");
    let conflict = EngineError::WriteConflict { txn: 7, key: vec![0, 171] };
    assert_eq!(
        conflict.message(),
        format!("SSI write-write conflict in transaction {} on key {:02x?}", 7, vec![0u8, 171])
    );
    assert!(conflict.is_conflict());
    let io = EngineError::Io(std::io::Error::new(std::io::ErrorKind::Other, "disk gone"));
    assert_eq!(io.message(), "I/O error: disk gone");
    assert!(!io.is_conflict());
    let null = EngineError::NullPrimaryKey { table: "t".to_string(), column: "c".to_string() };
    assert_eq!(null.message(), "primary key column `c` in table `t` is NULL");
}

#[test]
fn a_configuration_starts_from_its_defaults() {
    let config = EngineConfig::new("dir");
    assert_eq!(config.path, "dir");
    assert_eq!(config.wal_max_size_bytes, DEFAULT_WAL_MAX_SIZE_BYTES);
    assert_eq!(config.memtable_impl, MemTableImpl::SkipMap);
    assert_eq!(config.sync_mode, SyncMode::Full);
    let mut config = config.with_wal_max_size(5).with_gc_interval(6);
    config.memtable_flush_bytes = 77;
    let config = config
        .with_pressure(PressureConfig::default())
        .with_memtable_impl(MemTableImpl::BTreeMap)
        .with_sync_mode(SyncMode::Group { interval_us: 9 });
    assert_eq!((config.wal_max_size_bytes, config.gc_interval), (5, 6));
    assert_eq!(config.pressure.memtable_flush_bytes, 77);
    assert_eq!(config.memtable_impl, MemTableImpl::BTreeMap);
    assert_eq!(config.sync_mode, SyncMode::Group { interval_us: 9 });
}

#[test]
fn a_format_gives_back_what_it_was_given() {
    let mut format = MemoryFormat::new();
    let rows = vec![
        row(b"a", Some(b"2"), 5, OPEN_ENDED_TS),
        row(b"a", Some(b"1"), 2, 5),
        row(b"b", None, 3, OPEN_ENDED_TS),
    ];
    let handle = format.write("f", &rows, 4, None).unwrap();
    assert_eq!((handle.file_id, handle.rows), (4, 3));
    assert_eq!(format.read_all("f").unwrap().len(), 3);
    assert_eq!(format.get("f", b"a", Snapshot::new(4)).unwrap().unwrap().begin_ts, 2);
    assert!(format.get("f", b"b", Snapshot::new(4)).unwrap().unwrap().value.is_none());
    let seen = format
        .scan_with_filter("f", b"a", b"b", Snapshot::new(9), None, None, None)
        .unwrap();
    assert_eq!(seen.len(), 1);
    assert_eq!(format.zone_map("f", None).unwrap().total_rows, 3);
    assert!(format.read_all("g").is_err());
    format.remove("f").unwrap();
    format.remove("f").unwrap();
    assert!(format.read_all("f").is_err());
}

#[test]
fn predicates_are_pushed_down_where_a_file_can_answer() {
    let int = ColumnPredicate::Eq { col: 1, value: ScalarValue::Int64(Some(1)) };
    let day = ColumnPredicate::Eq { col: 1, value: ScalarValue::Int64(None) };
    assert!(can_vortex_pushdown(&int));
    let named = vec![("b".to_string(), int.clone()), ("b".to_string(), day.clone())];
    let (pushed, residual) = VortexFormat::new().plan_scan(Some(&named));
    assert_eq!(pushed.len() + residual.len(), 2);
    assert_eq!(pushed.len(), 1 + usize::from(can_vortex_pushdown(&day)));
    assert_eq!(business_column_name(12), "col_12");
}

#[test]
fn filters_select_rows_by_key_and_snapshot() {
    let r = row(b"k", Some(b"v"), 3, 8);
    assert!(get_filter(b"k", Snapshot::new(3)).evaluate(&r, &[]));
    assert!(!get_filter(b"k", Snapshot::new(8)).evaluate(&r, &[]));
    assert!(!get_filter(b"l", Snapshot::new(3)).evaluate(&r, &[]));
    assert!(scan_filter(b"a", b"l", Snapshot::new(7), &[]).evaluate(&r, &[]));
    assert!(!scan_filter(b"a", b"k", Snapshot::new(7), &[]).evaluate(&r, &[]));
}

#[test]
fn rows_survive_being_columns() {
    let rows = vec![row(b"a", Some(b"1"), 1, 4), row(b"b", None, 2, OPEN_ENDED_TS)];
    let columns = build_columns(&rows, None);
    assert_eq!(columns.tombstone, vec![false, true]);
    let back = collect_rows(ReadColumns {
        key: Some(columns.keys),
        value: Some(columns.values),
        begin_ts: Some(columns.begin_ts),
        end_ts: Some(columns.end_ts),
        tombstone: Some(columns.tombstone),
        row_count: 2,
    })
    .unwrap();
    assert_eq!(back, rows);
}

#[test]
fn replay_keeps_only_committed_transactions() {
    let mut table: MemTable = MemTable::new();
    let key = |k: &'static [u8]| Bytes::from_static(k);
    let log = vec![
        WalRecord::put(1, key(b"a"), key(b"1")),
        WalRecord::put(2, key(b"b"), key(b"2")),
        WalRecord::commit(2),
        WalRecord::commit(1),
        WalRecord::put(3, key(b"c"), key(b"3")),
        WalRecord::abort(3),
        WalRecord::commit(3),
        WalRecord::put(9, key(b"d"), key(b"4")),
    ];
    let replayed = replay_wal(&mut table, &log, 10).unwrap();
    assert_eq!((replayed.highest_tx, replayed.next_commit_ts), (9, 12));
    assert_eq!(table.get(b"b", Snapshot::new(20)).unwrap().begin_ts, 10);
    assert_eq!(table.get(b"a", Snapshot::new(20)).unwrap().begin_ts, 11);
    assert!(table.get(b"c", Snapshot::new(20)).is_none());
    assert!(table.get(b"d", Snapshot::new(20)).is_none());
}

#[test]
fn keys_name_their_table() {
    let key = assemble_table_key("t\u{e9}", &[b"1".to_vec(), b"2".to_vec()]);
    assert_eq!(key_table(&key), Some("t\u{e9}".to_string()));
    assert_eq!(key_table(b"a\xffb\0x"), Some("a\u{fffd}b".to_string()));
    assert_eq!(key_table(b"bare"), None);
}

#[test]
fn encodings_sort_like_numbers_floats_and_bytes() {
    let encode = |v: ScalarValue| OrderedPkCodec.encode_pk_value(&v).unwrap();
    let numbers = [i64::MIN, -256, -1, 0, 1, 255, 256, i64::MAX];
    for pair in numbers.windows(2) {
        let low = encode(ScalarValue::Int64(Some(pair[0])));
        let high = encode(ScalarValue::Int64(Some(pair[1])));
        assert!(low < high, "{pair:?}");
    }
    let floats = [f64::NEG_INFINITY, -1.5, -0.0, 0.0, 1.5, f64::INFINITY];
    for pair in floats.windows(2) {
        let low = encode(ScalarValue::Float64(Some(pair[0].to_bits())));
        let high = encode(ScalarValue::Float64(Some(pair[1].to_bits())));
        assert!(low < high, "{pair:?}");
    }
    let blobs: [&[u8]; 6] = [b"", b"\0", b"\0\x05", b"\x01", b"\x02", b"\xff"];
    for pair in blobs.windows(2) {
        let low = encode(ScalarValue::Binary(Some(pair[0].to_vec())));
        let high = encode(ScalarValue::Binary(Some(pair[1].to_vec())));
        assert!(low < high, "{pair:?}");
        assert!(!low.contains(&0) && !high.contains(&0));
    }
    assert!(OrderedPkCodec.encode_pk_value(&ScalarValue::Int64(None)).is_none());
}
