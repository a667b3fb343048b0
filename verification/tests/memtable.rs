use bytes::Bytes;
use hatp_engine::memtable::{BTreeMapTable, MemTable, MemTableImpl};
use hatp_engine::wal::WalRecord;
use hatp_engine::{Mutation, Snapshot};

fn put_record(tx_id: u64, key: &[u8], value: &[u8]) -> WalRecord {
    WalRecord::put(
        tx_id,
        Bytes::copy_from_slice(key),
        Bytes::copy_from_slice(value),
    )
}

/// Same set of mutations produce identical scan output on both backends.
fn assert_backends_equivalent(records: &[WalRecord], commit_ts: u64) {
    let mut btree: MemTable = MemTable::with_impl(MemTableImpl::BTreeMap);
    let mut skip: MemTable = MemTable::with_impl(MemTableImpl::SkipMap);
    btree.apply_records_batch(records, commit_ts).unwrap();
    skip.apply_records_batch(records, commit_ts).unwrap();

    let snap = Snapshot::new(commit_ts);
    let b_scan = btree.scan_prefix(b"", snap);
    let s_scan = skip.scan_prefix(b"", snap);
    assert_eq!(b_scan, s_scan, "skipmap must match btreemap outputs");

    let b_all = btree.all_versions();
    let s_all = skip.all_versions();
    assert_eq!(b_all.len(), s_all.len());
}

#[test]
fn skipmap_matches_btreemap_outputs() {
    let records = vec![
        put_record(1, b"a", b"1"),
        put_record(1, b"b", b"2"),
        put_record(2, b"a", b"3"), // overwrite a
    ];
    assert_backends_equivalent(&records, 2);
}

#[test]
fn skipmap_get_and_prefix_scan_round_trip() {
    let mut table: MemTable = MemTable::with_impl(MemTableImpl::SkipMap);
    let records = vec![
        put_record(1, b"t\x00k1", b"v1"),
        put_record(1, b"t\x00k2", b"v2"),
    ];
    table.apply_records_batch(&records, 1).unwrap();
    let snap = Snapshot::new(1);

    assert_eq!(
        table.get(b"t\x00k1", snap).unwrap().value.unwrap().as_ref(),
        b"v1"
    );
    let scanned = table.scan_prefix(b"t\x00", snap);
    assert_eq!(scanned.len(), 2);
}

#[test]
fn both_backends_erase_collect_and_clear_alike() {
    for kind in [MemTableImpl::BTreeMap, MemTableImpl::SkipMap] {
        let mut table: MemTable = MemTable::with_impl(kind);
        table.apply_records_batch(&[put_record(1, b"a\x00x", b"1")], 1).unwrap();
        table.apply_records_batch(&[put_record(2, b"a\x00x", b"2")], 2).unwrap();
        table.apply_records_batch(&[put_record(3, b"b\x00y", b"3")], 3).unwrap();
        assert_eq!(table.len(), 2);
        assert_eq!(table.all_versions().len(), 3);
        let range = table.scan_range_versions(b"a", b"b", Snapshot::new(3));
        assert_eq!(range.len(), 1);
        assert_eq!(range[0].1.begin_ts, 2);
        assert_eq!(table.garbage_collect(3), 1);
        assert_eq!(table.all_versions().len(), 2);
        assert_eq!(table.erase_prefix(b"a\x00"), 1);
        assert!(table.get(b"a\x00x", Snapshot::new(9)).is_none());
        assert!(table.approximate_bytes() > 0);
        table.clear();
        assert!(table.is_empty());
        assert_eq!(table.approximate_bytes(), 0);
    }
}

#[test]
fn a_put_without_a_value_is_refused() {
    let mut table: MemTable = MemTable::new();
    let mut bad = put_record(1, b"k", b"v");
    bad.value = None;
    assert!(table.apply_records_batch(&[bad], 1).is_err());
    assert!(table.is_empty());
}

#[test]
fn a_table_takes_a_backend_of_its_own() {
    let mut table = MemTable::with_backend(BTreeMapTable::new());
    table.apply_records_batch(&[put_record(1, b"k", b"v")], 3).unwrap();
    assert!(table.get(b"k", Snapshot::new(2)).is_none());
    let found = table.get(b"k", Snapshot::new(3)).unwrap();
    assert_eq!(found.value.as_deref(), Some(&b"v"[..]));
    assert_eq!(table.len(), 1);
}

#[test]
fn a_prefix_that_no_key_follows_selects_what_begins_with_it() {
    for kind in [MemTableImpl::BTreeMap, MemTableImpl::SkipMap] {
        let mut table: MemTable = MemTable::with_impl(kind);
        let records = [put_record(1, b"b", b"2"), put_record(1, b"a", b"1")];
        table.apply_records_batch(&records, 1).unwrap();
        let snap = Snapshot::new(1);
        let all = table.scan_prefix(b"", snap);
        let all: Vec<(&[u8], &[u8])> = all.iter().map(|(k, v)| (k.as_ref(), v.as_ref())).collect();
        assert_eq!(all, vec![(&b"a"[..], &b"1"[..]), (&b"b"[..], &b"2"[..])]);
        assert_eq!(table.scan_prefix_versions(b"", snap).len(), 2);
        assert!(table.scan_prefix(b"\xff", snap).is_empty());
        table.apply_records_batch(&[put_record(2, b"\xff\xffz", b"3")], 2).unwrap();
        let snap = Snapshot::new(2);
        let last = table.scan_prefix(b"\xff\xff", snap);
        assert_eq!(last.len(), 1);
        assert_eq!(last[0].0.as_ref(), b"\xff\xffz");
        assert_eq!(table.erase_prefix(b"\xff"), 1);
        assert_eq!(table.len(), 2);
        assert_eq!(table.erase_prefix(b""), 2);
        assert!(table.is_empty());
    }
}

#[test]
fn one_series_of_calls_leaves_the_same_in_both_backends() {
    let mut tables: Vec<MemTable> =
        [MemTableImpl::BTreeMap, MemTableImpl::SkipMap].map(MemTable::with_impl).into();
    let mut told: Vec<Vec<usize>> = vec![Vec::new(), Vec::new()];
    for (table, told) in tables.iter_mut().zip(told.iter_mut()) {
        let first = [put_record(1, b"k1", b"a"), put_record(1, b"k2", b"b"), put_record(1, b"j", b"c")];
        table.apply_records_batch(&first, 1).unwrap();
        let second = [
            Mutation::Put { key: Bytes::from_static(b"k1"), value: Bytes::from_static(b"d") },
            Mutation::Delete { key: Bytes::from_static(b"k2") },
        ];
        table.apply_mutations_batch(2, &second, 4).unwrap();
        let mut bad = put_record(3, b"k3", b"x");
        bad.value = None;
        let third = [put_record(3, b"k1", b"e"), bad, put_record(3, b"k4", b"y")];
        assert!(table.apply_records_batch(&third, 3).is_err());
        told.push(table.garbage_collect(3));
        told.push(table.approximate_bytes());
        told.push(table.erase_prefix(b"j"));
        told.push(table.len());
    }
    assert_eq!(told[0], told[1]);
    assert_eq!(told[0], vec![1, 160, 1, 2]);
    let rows = tables[0].all_versions();
    assert_eq!(rows, tables[1].all_versions());
    let listed: Vec<(&[u8], u64)> =
        rows.iter().map(|r| (r.key.as_ref(), r.version.begin_ts)).collect();
    let (k1, k2) = (&b"k1"[..], &b"k2"[..]);
    assert_eq!(listed, vec![(k1, 4), (k1, 3), (k2, 4), (k2, 1)]);
    for ts in 0..6 {
        let at = Snapshot::new(ts);
        assert_eq!(tables[0].scan_prefix(b"k", at), tables[1].scan_prefix(b"k", at));
        assert_eq!(tables[0].get(b"k1", at), tables[1].get(b"k1", at));
    }
    for table in &mut tables {
        table.clear();
        assert!(table.is_empty());
    }
}
