use bytes::Bytes;
use hatp_engine::{Snapshot, VersionChain, VersionedValue, OPEN_ENDED_TS};

#[test]
fn insert_out_of_order_sets_end_ts() {
    let mut chain = VersionChain::new();
    chain.insert(VersionedValue::live(Bytes::from_static(b"new"), 100, 1));
    chain.insert(VersionedValue::live(Bytes::from_static(b"old"), 50, 2));

    let versions = chain.versions();
    assert_eq!(versions.len(), 2);
    // Newest first.
    assert_eq!(versions[0].begin_ts, 100);
    assert_eq!(versions[0].end_ts, OPEN_ENDED_TS);
    assert_eq!(versions[1].begin_ts, 50);
    assert_eq!(
        versions[1].end_ts, 100,
        "mid-chain insert must be capped by the newer neighbour's begin_ts"
    );

    // A snapshot between the two timestamps sees the older value.
    let older = chain.get(Snapshot::new(75)).expect("visible at 75");
    assert_eq!(older.value.as_ref().expect("live").as_ref(), b"old");
    // A snapshot past the newer timestamp sees the newer value.
    let newer = chain.get(Snapshot::new(150)).expect("visible at 150");
    assert_eq!(newer.value.as_ref().expect("live").as_ref(), b"new");
}

#[test]
fn insert_newer_keeps_open_ended() {
    let mut chain = VersionChain::new();
    chain.insert(VersionedValue::live(Bytes::from_static(b"old"), 50, 1));
    chain.insert(VersionedValue::live(Bytes::from_static(b"new"), 100, 2));
    let versions = chain.versions();
    assert_eq!(versions.len(), 2);
    assert_eq!(versions[0].begin_ts, 100);
    assert_eq!(versions[0].end_ts, OPEN_ENDED_TS);
    assert_eq!(versions[1].end_ts, 100);
}

#[test]
fn garbage_collection_keeps_what_a_snapshot_may_read() {
    let mut chain = VersionChain::new();
    for ts in [10, 20, 30] {
        chain.insert(VersionedValue::live(Bytes::from_static(b"v"), ts, ts));
    }
    assert_eq!(chain.garbage_collect(25), 1);
    assert!(chain.get(Snapshot::new(15)).is_none());
    assert_eq!(chain.get(Snapshot::new(25)).expect("kept").begin_ts, 20);
    assert_eq!(chain.get(Snapshot::new(40)).expect("kept").begin_ts, 30);
    assert_eq!(chain.garbage_collect(u64::MAX), 1);
    assert_eq!(chain.versions().len(), 1);
    assert!(!chain.is_empty());
}

#[test]
fn more_versions_than_fit_inline_stay_in_order() {
    let mut chain = VersionChain::new();
    for ts in [5, 1, 9, 3, 7, 2, 8] {
        chain.insert(VersionedValue::live(Bytes::from_static(b"v"), ts, ts));
    }
    let begins: Vec<u64> = chain.versions().iter().map(|v| v.begin_ts).collect();
    assert_eq!(begins, vec![9, 8, 7, 5, 3, 2, 1]);
    chain.insert(VersionedValue::tombstone(7, 70));
    let at_seven = chain.get(Snapshot::new(7)).expect("replaced");
    assert!(at_seven.value.is_none());
    assert_eq!(at_seven.end_ts, 8);
    assert_eq!(chain.versions().len(), 7);
    assert_eq!(chain.clone().versions().len(), 7);
}
