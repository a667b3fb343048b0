use bytes::Bytes;
use hatp_engine::file_io::FakeFileIO;
use hatp_engine::key_index::{can_index, KeyIndex};
use hatp_engine::memtable::VersionedRow;
use hatp_engine::{VersionedValue, OPEN_ENDED_TS};

fn row(key: &[u8], value: &[u8], begin_ts: u64, end_ts: u64) -> VersionedRow {
    VersionedRow {
        key: Bytes::copy_from_slice(key),
        version: VersionedValue {
            value: Some(Bytes::copy_from_slice(value)),
            begin_ts,
            end_ts,
            tx_id: 0,
        },
    }
}

fn tombstone_row(key: &[u8], begin_ts: u64) -> VersionedRow {
    VersionedRow {
        key: Bytes::copy_from_slice(key),
        version: VersionedValue {
            value: None,
            begin_ts,
            end_ts: OPEN_ENDED_TS,
            tx_id: 0,
        },
    }
}

#[test]
fn round_trip_single_key() {
    let rows = vec![row(b"hello", b"world", 1, OPEN_ENDED_TS)];
    let index = KeyIndex::from_rows(&rows);
    let found = index.get(b"hello").expect("found");
    assert_eq!(found.value.as_deref(), Some(b"world".as_ref()));
    assert_eq!(found.begin_ts, 1);
}

#[test]
fn round_trip_tombstone() {
    let rows = vec![tombstone_row(b"deleted", 5)];
    let index = KeyIndex::from_rows(&rows);
    let found = index.get(b"deleted").expect("found tombstone");
    assert!(found.value.is_none());
    assert_eq!(found.begin_ts, 5);
}

#[test]
fn binary_search_multiple_keys() {
    let mut rows: Vec<_> = (0..1000u64)
        .map(|i| {
            let key = format!("key-{i:05}");
            let value = format!("value-{i:05}");
            row(key.as_bytes(), value.as_bytes(), i, OPEN_ENDED_TS)
        })
        .collect();
    rows.sort_by(|a, b| a.key.cmp(&b.key));
    let index = KeyIndex::from_rows(&rows);

    for i in 0..1000u64 {
        let key = format!("key-{i:05}");
        let found = index.get(key.as_bytes()).expect("found");
        let expected = format!("value-{i:05}");
        assert_eq!(found.value.as_deref(), Some(expected.as_bytes()));
    }
    assert!(index.get(b"key-99999").is_none());
    assert!(index.get(b"nonexistent").is_none());
}

#[test]
fn file_round_trip() {
    let mut disk = FakeFileIO::new("unused");
    let path = "hatp-kidx-/test.kidx";

    let rows = vec![
        row(b"alpha", b"1", 1, OPEN_ENDED_TS),
        row(b"beta", b"2", 2, OPEN_ENDED_TS),
        row(b"gamma", b"3", 3, OPEN_ENDED_TS),
    ];
    let index = KeyIndex::from_rows(&rows);
    index.write_to(&mut disk, path).expect("write");

    let loaded = KeyIndex::read_from(&mut disk, path).expect("read");
    assert_eq!(loaded.count, 3);
    assert_eq!(
        loaded.get(b"beta").and_then(|v| v.value).as_deref(),
        Some(b"2".as_ref())
    );
}

#[test]
fn key_index_rejects_corrupt_input() {
    let mut disk = FakeFileIO::new("unused");
    assert!(KeyIndex::read_from(&mut disk, "/nonexistent").is_none());
}

#[test]
fn invariants_hold_for_valid_index() {
    let rows = vec![row(b"alpha", b"1", 1, OPEN_ENDED_TS), row(b"beta", b"2", 2, OPEN_ENDED_TS)];
    let index = KeyIndex::from_rows(&rows);
    assert!(index.assert_invariants());
}

#[test]
fn invariants_reject_corrupt_count() {
    let rows = vec![row(b"k", b"v", 1, OPEN_ENDED_TS)];
    let mut index = KeyIndex::from_rows(&rows);
    index.count = 0;
    assert!(!index.assert_invariants());
}

#[test]
fn the_newest_of_several_versions_is_found() {
    let rows = vec![
        row(b"k", b"new", 9, OPEN_ENDED_TS),
        row(b"k", b"old", 4, 9),
        row(b"z", b"last", 2, OPEN_ENDED_TS),
    ];
    let index = KeyIndex::from_rows(&rows);
    assert_eq!(index.get(b"k").expect("newest").begin_ts, 9);
    assert_eq!(index.get_visible(b"k", 8).expect("older").begin_ts, 4);
    assert_eq!(index.get_visible(b"k", 9).expect("newer").begin_ts, 9);
    assert!(index.get_visible(b"k", 3).is_none());
    assert!(can_index(&rows));
}

#[test]
fn truncated_bytes_are_no_index() {
    let rows = vec![row(b"k", b"v", 1, OPEN_ENDED_TS)];
    let index = KeyIndex::from_rows(&rows);
    let bytes = index.data.to_vec();
    assert!(KeyIndex::from_bytes(&bytes).is_some());
    assert!(KeyIndex::from_bytes(&bytes[..bytes.len() - 1]).is_none());
    assert!(KeyIndex::from_bytes(b"").is_none());
}
