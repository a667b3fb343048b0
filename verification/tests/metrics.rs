use hatp_engine::metrics::{create_metrics, EngineMetrics};

#[test]
fn test_snapshot() {
    let mut m = EngineMetrics::new();
    m.record_commit();
    m.record_commit();
    m.record_abort();
    m.record_wal_write(1024);

    let s = m.snapshot();
    assert_eq!(s.tx_committed, 2);
    assert_eq!(s.tx_aborted, 1);
    assert_eq!(s.wal_bytes_written, 1024);
}

#[test]
fn test_prometheus_text() {
    let mut m = EngineMetrics::new();
    m.record_commit();
    let text = m.snapshot().to_prometheus_text();
    assert!(text.contains("hatp_tx_committed_total 1"));
}

#[test]
fn counters_wrap_around() {
    let mut m = EngineMetrics::new();
    m.record_sst_write(u64::MAX);
    m.record_sst_write(3);
    assert_eq!(m.snapshot().sst_bytes_written, 2);
    assert_eq!(create_metrics().snapshot().sst_bytes_written, 0);
}
